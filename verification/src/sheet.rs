//! Programs as lists of facts, and a small builder for them.
use vstd::prelude::*;

use crate::ir::{
    four_set, four_view, indexed_set, indexed_view, one_set, one_view, placed_set, placed_view,
    three_set, three_view, two_set, two_view, Alloc, Edb, Field, Name, Proc, Program, Sig, Stmt,
    Symbol, Type, Var,
};

verus! {

// ---------------------------------------------------------------------------
// Lists of facts
// ---------------------------------------------------------------------------

/// The tuples of `v` by the text of their symbols, in order.
pub open spec fn one_list<A: Symbol>(v: Seq<(A,)>) -> Seq<Name> {
    Seq::new(v.len(), |i: int| one_view(v[i]))
}

/// The tuples of `v` by the text of their symbols, in order.
pub open spec fn two_list<A: Symbol, B: Symbol>(v: Seq<(A, B)>) -> Seq<(Name, Name)> {
    Seq::new(v.len(), |i: int| two_view(v[i]))
}

/// The tuples of `v` by the text of their symbols, in order.
pub open spec fn placed_list<A: Symbol,
    B: Symbol>(v: Seq<(A, B, usize)>) -> Seq<(Name, Name, usize)> {
    Seq::new(v.len(), |i: int| placed_view(v[i]))
}

/// The tuples of `v` by the text of their symbols, in order.
pub open spec fn three_list<A: Symbol, B: Symbol,
    C: Symbol>(v: Seq<(A, B, C)>) -> Seq<(Name, Name, Name)> {
    Seq::new(v.len(), |i: int| three_view(v[i]))
}

/// The tuples of `v` by the text of their symbols, in order.
pub open spec fn four_list<A: Symbol, B: Symbol, C: Symbol,
    D: Symbol>(v: Seq<(A, B, C, D)>) -> Seq<(Name, Name, Name, Name)> {
    Seq::new(v.len(), |i: int| four_view(v[i]))
}

/// The tuples of `v` by the text of their symbols, in order.
pub open spec fn indexed_list<A: Symbol,
    B: Symbol>(v: Seq<(A, usize, B)>) -> Seq<(Name, usize, Name)> {
    Seq::new(v.len(), |i: int| indexed_view(v[i]))
}

/// The facts of a program that allocates, moves, loads fields and calls: each
/// relation as the list of its tuples.
#[verifier::ext_equal]
pub struct Sheet {
    pub procedure: Seq<Name>,
    pub proc_type: Seq<(Name, Name)>,
    pub proc_sig: Seq<(Name, Name)>,
    pub entry: Seq<Name>,
    pub in_proc: Seq<(Name, Name, usize)>,
    pub alloc: Seq<(Name, Name, Name)>,
    pub alloc_type: Seq<(Name, Name)>,
    pub mov: Seq<(Name, Name, Name)>,
    pub load_field: Seq<(Name, Name, Name, Name)>,
    pub direct_call: Seq<(Name, Name)>,
    pub virtual_call: Seq<(Name, Name, Name)>,
    pub actual_arg: Seq<(Name, usize, Name)>,
    pub bind_ret: Seq<(Name, Name)>,
    pub formal: Seq<(Name, usize, Name)>,
    pub ret: Seq<(Name, Name)>,
    pub direct_subtype: Seq<(Name, Name)>,
    pub lookup: Seq<(Name, Name, Name)>,
}

/// The text of each of some strings.
pub open spec fn texts(v: Seq<String>) -> Seq<Name> {
    Seq::new(v.len(), |i: int| v[i]@)
}

/// Each of `names` under `s`, numbered from zero.
pub open spec fn positions(s: Name, names: Seq<Name>) -> Seq<(Name, usize, Name)> {
    Seq::new(names.len(), |i: int| (s, i as usize, names[i]))
}

/// How many statements stand in the body of `owner`.
pub open spec fn lines_of(v: Seq<(Name, Name, usize)>, owner: Name) -> nat
    decreases v.len(),
{
    if v.len() == 0 {
        0
    } else {
        lines_of(v.drop_last(), owner) + (if v.last().1 == owner {
            1nat
        } else {
            0nat
        })
    }
}

impl Sheet {
    pub open spec fn blank() -> Sheet {
        Sheet {
            procedure: Seq::empty(),
            proc_type: Seq::empty(),
            proc_sig: Seq::empty(),
            entry: Seq::empty(),
            in_proc: Seq::empty(),
            alloc: Seq::empty(),
            alloc_type: Seq::empty(),
            mov: Seq::empty(),
            load_field: Seq::empty(),
            direct_call: Seq::empty(),
            virtual_call: Seq::empty(),
            actual_arg: Seq::empty(),
            bind_ret: Seq::empty(),
            formal: Seq::empty(),
            ret: Seq::empty(),
            direct_subtype: Seq::empty(),
            lookup: Seq::empty(),
        }
    }

    /// A procedure of class `K` with its formals.
    pub open spec fn proc(self, name: Name, formals: Seq<Name>) -> Sheet {
        Sheet {
            procedure: self.procedure.push(name),
            proc_type: self.proc_type.push((name, "K"@)),
            formal: self.formal + positions(name, formals),
            ..self
        }
    }

    /// The next statement of `owner`.
    pub open spec fn stmt(self, s: Name, owner: Name) -> Sheet {
        Sheet {
            in_proc: self.in_proc.push((s, owner, lines_of(self.in_proc, owner) as usize)),
            ..self
        }
    }

    /// `v = new ty` at `site`.
    pub open spec fn new_object(self, s: Name, owner: Name, v: Name, site: Name, ty: Name)
        -> Sheet {
        Sheet {
            alloc: self.alloc.push((s, v, site)),
            alloc_type: self.alloc_type.push((site, ty)),
            ..self.stmt(s, owner)
        }
    }

    /// `to = from`.
    pub open spec fn mov(self, s: Name, owner: Name, to: Name, from: Name) -> Sheet {
        Sheet { mov: self.mov.push((s, to, from)), ..self.stmt(s, owner) }
    }

    /// `to = base.f`.
    pub open spec fn load_field(self, s: Name, owner: Name, to: Name, base: Name, f: Name)
        -> Sheet {
        Sheet { load_field: self.load_field.push((s, to, base, f)), ..self.stmt(s, owner) }
    }

    /// `v = callee(args)`.
    pub open spec fn call(self, s: Name, owner: Name, callee: Name, args: Seq<Name>, v: Name)
        -> Sheet {
        Sheet {
            direct_call: self.direct_call.push((s, callee)),
            actual_arg: self.actual_arg + positions(s, args),
            bind_ret: self.bind_ret.push((s, v)),
            ..self.stmt(s, owner)
        }
    }

    /// `v = recv.sig(args)`.
    pub open spec fn vcall(
        self,
        s: Name,
        owner: Name,
        recv: Name,
        sig: Name,
        args: Seq<Name>,
        v: Name,
    ) -> Sheet {
        Sheet {
            virtual_call: self.virtual_call.push((s, recv, sig)),
            actual_arg: self.actual_arg + positions(s, args),
            bind_ret: self.bind_ret.push((s, v)),
            ..self.stmt(s, owner)
        }
    }

    /// `owner` returns `v`.
    pub open spec fn ret(self, owner: Name, v: Name) -> Sheet {
        Sheet { ret: self.ret.push((owner, v)), ..self }
    }

    pub open spec fn entry(self, owner: Name) -> Sheet {
        Sheet { entry: self.entry.push(owner), ..self }
    }

    /// The class `ty` implements `poly(Obj)` of the interface `I` by `imp`.
    pub open spec fn implements(self, ty: Name, imp: Name) -> Sheet {
        Sheet {
            direct_subtype: self.direct_subtype.push((ty, "I"@)),
            lookup: self.lookup.push((ty, "poly(Obj)"@, imp)),
            proc_sig: self.proc_sig.push((imp, "poly(Obj)"@)),
            ..self
        }
    }
}

/// The facts of `prog`.
pub open spec fn sheet_of(prog: Program) -> Sheet {
    Sheet {
        procedure: one_list(prog.procedure@),
        proc_type: two_list(prog.proc_type@),
        proc_sig: two_list(prog.proc_sig@),
        entry: one_list(prog.entry@),
        in_proc: placed_list(prog.in_proc@),
        alloc: three_list(prog.alloc@),
        alloc_type: two_list(prog.alloc_type@),
        mov: three_list(prog.mov@),
        load_field: four_list(prog.load_field@),
        direct_call: two_list(prog.direct_call@),
        virtual_call: three_list(prog.virtual_call@),
        actual_arg: indexed_list(prog.actual_arg@),
        bind_ret: two_list(prog.bind_ret@),
        formal: indexed_list(prog.formal@),
        ret: two_list(prog.ret@),
        direct_subtype: two_list(prog.direct_subtype@),
        lookup: three_list(prog.lookup@),
    }
}

/// `prog` holds exactly the facts of `sheet`, and no others.
pub open spec fn written(prog: Program, sheet: Sheet) -> bool {
    &&& sheet_of(prog) == sheet
    &&& prog.const_assign@.len() == 0
    &&& prog.store_field@.len() == 0
    &&& prog.load_static@.len() == 0
    &&& prog.store_static@.len() == 0
    &&& prog.load_index_const@.len() == 0
    &&& prog.store_index_const@.len() == 0
    &&& prog.load_index_var@.len() == 0
    &&& prog.store_index_var@.len() == 0
    &&& prog.paths@.len() == 0
}

// ---------------------------------------------------------------------------
// Sheets and facts
// ---------------------------------------------------------------------------

proof fn lemma_one_list<A: Symbol>(v: Seq<(A,)>)
    ensures
        forall|x| #[trigger] one_set(v).contains(x) <==> one_list(v).contains(x),
{
    let list = one_list(v);
    assert forall|x| one_set(v).contains(x) implies #[trigger] list.contains(x) by {
        let i = choose|i: int| 0 <= i < v.len() && one_view(#[trigger] v[i]) == x;
        assert(list[i] == x);
    }
    assert forall|x| list.contains(x) implies #[trigger] one_set(v).contains(x) by {
        let i = choose|i: int| 0 <= i < list.len() && #[trigger] list[i] == x;
        assert(one_view(v[i]) == x);
    }
}

proof fn lemma_two_list<A: Symbol, B: Symbol>(v: Seq<(A, B)>)
    ensures
        forall|x| #[trigger] two_set(v).contains(x) <==> two_list(v).contains(x),
{
    let list = two_list(v);
    assert forall|x| two_set(v).contains(x) implies #[trigger] list.contains(x) by {
        let i = choose|i: int| 0 <= i < v.len() && two_view(#[trigger] v[i]) == x;
        assert(list[i] == x);
    }
    assert forall|x| list.contains(x) implies #[trigger] two_set(v).contains(x) by {
        let i = choose|i: int| 0 <= i < list.len() && #[trigger] list[i] == x;
        assert(two_view(v[i]) == x);
    }
}

proof fn lemma_placed_list<A: Symbol, B: Symbol>(v: Seq<(A, B, usize)>)
    ensures
        forall|x| #[trigger] placed_set(v).contains(x) <==> placed_list(v).contains(x),
{
    let list = placed_list(v);
    assert forall|x| placed_set(v).contains(x) implies #[trigger] list.contains(x) by {
        let i = choose|i: int| 0 <= i < v.len() && placed_view(#[trigger] v[i]) == x;
        assert(list[i] == x);
    }
    assert forall|x| list.contains(x) implies #[trigger] placed_set(v).contains(x) by {
        let i = choose|i: int| 0 <= i < list.len() && #[trigger] list[i] == x;
        assert(placed_view(v[i]) == x);
    }
}

proof fn lemma_three_list<A: Symbol, B: Symbol, C: Symbol>(v: Seq<(A, B, C)>)
    ensures
        forall|x| #[trigger] three_set(v).contains(x) <==> three_list(v).contains(x),
{
    let list = three_list(v);
    assert forall|x| three_set(v).contains(x) implies #[trigger] list.contains(x) by {
        let i = choose|i: int| 0 <= i < v.len() && three_view(#[trigger] v[i]) == x;
        assert(list[i] == x);
    }
    assert forall|x| list.contains(x) implies #[trigger] three_set(v).contains(x) by {
        let i = choose|i: int| 0 <= i < list.len() && #[trigger] list[i] == x;
        assert(three_view(v[i]) == x);
    }
}

proof fn lemma_four_list<A: Symbol, B: Symbol, C: Symbol, D: Symbol>(v: Seq<(A, B, C, D)>)
    ensures
        forall|x| #[trigger] four_set(v).contains(x) <==> four_list(v).contains(x),
{
    let list = four_list(v);
    assert forall|x| four_set(v).contains(x) implies #[trigger] list.contains(x) by {
        let i = choose|i: int| 0 <= i < v.len() && four_view(#[trigger] v[i]) == x;
        assert(list[i] == x);
    }
    assert forall|x| list.contains(x) implies #[trigger] four_set(v).contains(x) by {
        let i = choose|i: int| 0 <= i < list.len() && #[trigger] list[i] == x;
        assert(four_view(v[i]) == x);
    }
}

proof fn lemma_indexed_list<A: Symbol, B: Symbol>(v: Seq<(A, usize, B)>)
    ensures
        forall|x| #[trigger] indexed_set(v).contains(x) <==> indexed_list(v).contains(x),
{
    let list = indexed_list(v);
    assert forall|x| indexed_set(v).contains(x) implies #[trigger] list.contains(x) by {
        let i = choose|i: int| 0 <= i < v.len() && indexed_view(#[trigger] v[i]) == x;
        assert(list[i] == x);
    }
    assert forall|x| list.contains(x) implies #[trigger] indexed_set(v).contains(x) by {
        let i = choose|i: int| 0 <= i < list.len() && #[trigger] list[i] == x;
        assert(indexed_view(v[i]) == x);
    }
}

/// The facts `e` are those of a sheet.
pub open spec fn reads(e: Edb, s: Sheet) -> bool {
    &&& forall|x| #[trigger] e.procedure.contains(x) <==> s.procedure.contains(x)
    &&& forall|x| #[trigger] e.proc_type.contains(x) <==> s.proc_type.contains(x)
    &&& forall|x| #[trigger] e.proc_sig.contains(x) <==> s.proc_sig.contains(x)
    &&& forall|x| #[trigger] e.entry.contains(x) <==> s.entry.contains(x)
    &&& forall|x| #[trigger] e.in_proc.contains(x) <==> s.in_proc.contains(x)
    &&& forall|x| #[trigger] e.alloc.contains(x) <==> s.alloc.contains(x)
    &&& forall|x| #[trigger] e.alloc_type.contains(x) <==> s.alloc_type.contains(x)
    &&& forall|x| #[trigger] e.mov.contains(x) <==> s.mov.contains(x)
    &&& forall|x| #[trigger] e.load_field.contains(x) <==> s.load_field.contains(x)
    &&& forall|x| #[trigger] e.direct_call.contains(x) <==> s.direct_call.contains(x)
    &&& forall|x| #[trigger] e.virtual_call.contains(x) <==> s.virtual_call.contains(x)
    &&& forall|x| #[trigger] e.actual_arg.contains(x) <==> s.actual_arg.contains(x)
    &&& forall|x| #[trigger] e.bind_ret.contains(x) <==> s.bind_ret.contains(x)
    &&& forall|x| #[trigger] e.formal.contains(x) <==> s.formal.contains(x)
    &&& forall|x| #[trigger] e.ret.contains(x) <==> s.ret.contains(x)
    &&& forall|x| #[trigger] e.direct_subtype.contains(x) <==> s.direct_subtype.contains(x)
    &&& forall|x| #[trigger] e.lookup.contains(x) <==> s.lookup.contains(x)
    &&& forall|x| !#[trigger] e.const_assign.contains(x)
    &&& forall|x| !#[trigger] e.store_field.contains(x)
    &&& forall|x| !#[trigger] e.load_static.contains(x)
    &&& forall|x| !#[trigger] e.store_static.contains(x)
    &&& forall|x| !#[trigger] e.load_index_const.contains(x)
    &&& forall|x| !#[trigger] e.store_index_const.contains(x)
    &&& forall|x| !#[trigger] e.load_index_var.contains(x)
    &&& forall|x| !#[trigger] e.store_index_var.contains(x)
}

/// A program that a sheet describes has its facts.
pub proof fn lemma_reads(prog: Program, s: Sheet)
    requires
        written(prog, s),
    ensures
        reads(prog@, s),
{
    lemma_one_list(prog.procedure@);
    lemma_two_list(prog.proc_type@);
    lemma_two_list(prog.proc_sig@);
    lemma_one_list(prog.entry@);
    lemma_placed_list(prog.in_proc@);
    lemma_three_list(prog.alloc@);
    lemma_two_list(prog.alloc_type@);
    lemma_three_list(prog.mov@);
    lemma_four_list(prog.load_field@);
    lemma_two_list(prog.direct_call@);
    lemma_three_list(prog.virtual_call@);
    lemma_indexed_list(prog.actual_arg@);
    lemma_two_list(prog.bind_ret@);
    lemma_indexed_list(prog.formal@);
    lemma_two_list(prog.ret@);
    lemma_two_list(prog.direct_subtype@);
    lemma_three_list(prog.lookup@);
}

// ---------------------------------------------------------------------------
// The builder
// ---------------------------------------------------------------------------

/// The counts are those of a list of statements.
pub open spec fn counts(lines: Seq<(String, usize)>, placed: Seq<(Name, Name, usize)>) -> bool {
    &&& forall|i: int|
        0 <= i < lines.len() ==> (#[trigger] lines[i]).1 == lines_of(placed, lines[i].0@)
    &&& forall|i: int, j: int|
        0 <= i < j < lines.len() ==> (#[trigger] lines[i]).0@ != (#[trigger] lines[j]).0@
    &&& forall|owner: Name| #[trigger]
        lines_of(placed, owner) > 0 ==> exists|i: int|
            0 <= i < lines.len() && (#[trigger] lines[i]).0@ == owner
}

/// A program under construction. It keeps the line numbers of `in_proc`
/// consistent.
pub struct Builder {
    pub prog: Program,
    /// A procedure and how many statements it has.
    pub lines: Vec<(String, usize)>,
}

impl Builder {
    /// The line counts are those of the program, and it has only facts that the
    /// builder writes.
    pub open spec fn ok(&self) -> bool {
        &&& counts(self.lines@, placed_list(self.prog.in_proc@))
        &&& self.prog.const_assign@.len() == 0
        &&& self.prog.store_field@.len() == 0
        &&& self.prog.load_static@.len() == 0
        &&& self.prog.store_static@.len() == 0
        &&& self.prog.load_index_const@.len() == 0
        &&& self.prog.store_index_const@.len() == 0
        &&& self.prog.load_index_var@.len() == 0
        &&& self.prog.store_index_var@.len() == 0
        &&& self.prog.paths@.len() == 0
    }

    pub open spec fn sheet(&self) -> Sheet {
        sheet_of(self.prog)
    }

    pub fn new() -> (r: Self)
        ensures
            r.ok(),
            r.sheet() == Sheet::blank(),
    {
        let r = Builder { prog: Program::default(), lines: Vec::new() };
        proof {
            assert(r.sheet() =~= Sheet::blank());
        }
        r
    }

    /// Where the count of `owner` is kept.
    fn find(&self, owner: &str) -> (r: Option<usize>)
        ensures
            match r {
                Some(i) => i < self.lines@.len() && self.lines@[i as int].0@ == owner@,
                None => forall|i: int|
                    0 <= i < self.lines@.len() ==> (#[trigger] self.lines@[i]).0@ != owner@,
            },
    {
        let name = owner.to_owned();
        let mut i: usize = 0;
        while i < self.lines.len()
            invariant
                i <= self.lines@.len(),
                name@ == owner@,
                forall|j: int| 0 <= j < i ==> (#[trigger] self.lines@[j]).0@ != owner@,
            decreases self.lines@.len() - i,
        {
            if self.lines[i].0 == name {
                return Some(i);
            }
            i += 1;
        }
        None
    }

    fn stmt(&mut self, st: &str, owner: &str)
        requires
            old(self).ok(),
        ensures
            final(self).ok(),
            final(self).sheet() == old(self).sheet().stmt(st@, owner@),
            final(self).prog == (Program { in_proc: final(self).prog.in_proc, ..old(self).prog }),
    {
        let ghost placed = placed_list(self.prog.in_proc@);
        let ghost before = self.lines@;
        let at = self.find(owner);
        let n: usize = match at {
            Some(i) => self.lines[i].1,
            None => 0,
        };
        proof {
            lemma_lines_bound(placed, owner@);
        }
        self.prog.in_proc.push((Stmt::of(st.to_owned()), Proc::of(owner.to_owned()), n));
        let size: usize = self.prog.in_proc.len();
        let ghost now = placed_list(self.prog.in_proc@);
        proof {
            assert(n == lines_of(placed, owner@));
            assert(n < size);
            assert(now =~= placed.push((st@, owner@, n)));
            assert(now.drop_last() =~= placed);
            assert forall|x: Name| #[trigger] lines_of(now, x) == lines_of(placed,
                x) + (if x == owner@ {
                1nat
            } else {
                0nat
            }) by {
            }
        }
        match at {
            Some(i) => {
                self.lines.set(i, (owner.to_owned(), n + 1));
            },
            None => {
                self.lines.push((owner.to_owned(), 1));
            },
        }
        proof {
            assert forall|x: Name| #[trigger] lines_of(now, x) > 0 implies exists|j: int|
                0 <= j < self.lines@.len() && (#[trigger] self.lines@[j]).0@ == x by {
                if x == owner@ {
                    let j: int = match at {
                        Some(i) => i as int,
                        None => before.len() as int,
                    };
                    assert(self.lines@[j].0@ == x);
                } else {
                    assert(lines_of(placed, x) > 0);
                    let j = choose|j: int| 0 <= j < before.len() && (#[trigger] before[j]).0@ == x;
                    assert(self.lines@[j].0@ == x);
                }
            }
            assert(self.sheet() =~= old(self).sheet().stmt(st@, owner@));
        }
    }

    pub fn proc(&mut self, name: &str, formals: &Vec<String>)
        requires
            old(self).ok(),
        ensures
            final(self).ok(),
            final(self).sheet() == old(self).sheet().proc(name@, texts(formals@)),
    {
        self.prog.procedure.push((Proc::of(name.to_owned()),));
        self.prog.proc_type.push((Proc::of(name.to_owned()), Type::of("K".to_owned())));
        let ghost start = *self;
        let ghost all = positions(name@, texts(formals@));
        let mut i: usize = 0;
        while i < formals.len()
            invariant
                i <= formals@.len(),
                all == positions(name@, texts(formals@)),
                self.ok(),
                self.prog == (Program { formal: self.prog.formal, ..start.prog }),
                indexed_list(self.prog.formal@) == indexed_list(start.prog.formal@) + all.take(
                    i as int,
                ),
            decreases formals@.len() - i,
        {
            let ghost before = indexed_list(self.prog.formal@);
            self.prog.formal.push((Proc::of(name.to_owned()), i, Var::of(formals[i].clone())));
            proof {
                assert(all.take(i + 1) =~= all.take(i as int).push(all[i as int]));
                assert(indexed_list(self.prog.formal@) =~= before.push(all[i as int]));
            }
            i += 1;
        }
        proof {
            assert(all.take(i as int) =~= all);
            assert(self.sheet() =~= old(self).sheet().proc(name@, texts(formals@)));
        }
    }

    pub fn new_object(&mut self, st: &str, owner: &str, var: &str, site: &str, ty: &str)
        requires
            old(self).ok(),
        ensures
            final(self).ok(),
            final(self).sheet() == old(self).sheet().new_object(st@, owner@, var@, site@, ty@),
    {
        self.stmt(st, owner);
        self.prog.alloc.push(
            (Stmt::of(st.to_owned()), Var::of(var.to_owned()), Alloc::of(site.to_owned())),
        );
        self.prog.alloc_type.push((Alloc::of(site.to_owned()), Type::of(ty.to_owned())));
        proof {
            assert(self.sheet() =~= old(self).sheet().new_object(st@, owner@, var@, site@, ty@));
        }
    }

    pub fn mov(&mut self, st: &str, owner: &str, to: &str, from: &str)
        requires
            old(self).ok(),
        ensures
            final(self).ok(),
            final(self).sheet() == old(self).sheet().mov(st@, owner@, to@, from@),
    {
        self.stmt(st, owner);
        self.prog.mov.push(
            (Stmt::of(st.to_owned()), Var::of(to.to_owned()), Var::of(from.to_owned())),
        );
        proof {
            assert(self.sheet() =~= old(self).sheet().mov(st@, owner@, to@, from@));
        }
    }

    pub fn load_field(&mut self, st: &str, owner: &str, to: &str, base: &str, f: &str)
        requires
            old(self).ok(),
        ensures
            final(self).ok(),
            final(self).sheet() == old(self).sheet().load_field(st@, owner@, to@, base@, f@),
    {
        self.stmt(st, owner);
        self.prog.load_field.push(
            (
                Stmt::of(st.to_owned()),
                Var::of(to.to_owned()),
                Var::of(base.to_owned()),
                Field::of(f.to_owned()),
            ),
        );
        proof {
            assert(self.sheet() =~= old(self).sheet().load_field(st@, owner@, to@, base@, f@));
        }
    }

    /// The arguments of a callsite.
    fn args(&mut self, st: &str, args: &Vec<String>)
        requires
            old(self).ok(),
        ensures
            final(self).ok(),
            final(self).prog == (Program {
                actual_arg: final(self).prog.actual_arg,
                ..old(self).prog
            }),
            indexed_list(final(self).prog.actual_arg@) == indexed_list(old(self).prog.actual_arg@)
                + positions(st@, texts(args@)),
    {
        let ghost start = *self;
        let ghost all = positions(st@, texts(args@));
        let mut i: usize = 0;
        while i < args.len()
            invariant
                i <= args@.len(),
                all == positions(st@, texts(args@)),
                self.ok(),
                self.prog == (Program { actual_arg: self.prog.actual_arg, ..start.prog }),
                indexed_list(self.prog.actual_arg@) == indexed_list(start.prog.actual_arg@)
                    + all.take(i as int),
            decreases args@.len() - i,
        {
            let ghost before = indexed_list(self.prog.actual_arg@);
            self.prog.actual_arg.push((Stmt::of(st.to_owned()), i, Var::of(args[i].clone())));
            proof {
                assert(all.take(i + 1) =~= all.take(i as int).push(all[i as int]));
                assert(indexed_list(self.prog.actual_arg@) =~= before.push(all[i as int]));
            }
            i += 1;
        }
        proof {
            assert(all.take(i as int) =~= all);
        }
    }

    pub fn call(&mut self, st: &str, owner: &str, callee: &str, args: &Vec<String>, ret: &str)
        requires
            old(self).ok(),
        ensures
            final(self).ok(),
            final(self).sheet() == old(self).sheet().call(
                st@,
                owner@,
                callee@,
                texts(args@),
                ret@,
            ),
    {
        self.stmt(st, owner);
        self.prog.direct_call.push((Stmt::of(st.to_owned()), Proc::of(callee.to_owned())));
        self.args(st, args);
        self.prog.bind_ret.push((Stmt::of(st.to_owned()), Var::of(ret.to_owned())));
        proof {
            assert(self.sheet() =~= old(self).sheet().call(
                st@,
                owner@,
                callee@,
                texts(args@),
                ret@,
            ));
        }
    }

    pub fn vcall(
        &mut self,
        st: &str,
        owner: &str,
        recv: &str,
        sig: &str,
        args: &Vec<String>,
        ret: &str,
    )
        requires
            old(self).ok(),
        ensures
            final(self).ok(),
            final(self).sheet() == old(self).sheet().vcall(
                st@,
                owner@,
                recv@,
                sig@,
                texts(args@),
                ret@,
            ),
    {
        self.stmt(st, owner);
        self.prog.virtual_call.push(
            (Stmt::of(st.to_owned()), Var::of(recv.to_owned()), Sig::of(sig.to_owned())),
        );
        self.args(st, args);
        self.prog.bind_ret.push((Stmt::of(st.to_owned()), Var::of(ret.to_owned())));
        proof {
            assert(self.sheet() =~= old(self).sheet().vcall(
                st@,
                owner@,
                recv@,
                sig@,
                texts(args@),
                ret@,
            ));
        }
    }

    pub fn ret(&mut self, owner: &str, var: &str)
        requires
            old(self).ok(),
        ensures
            final(self).ok(),
            final(self).sheet() == old(self).sheet().ret(owner@, var@),
    {
        self.prog.ret.push((Proc::of(owner.to_owned()), Var::of(var.to_owned())));
        proof {
            assert(self.sheet() =~= old(self).sheet().ret(owner@, var@));
        }
    }

    pub fn entry(&mut self, owner: &str)
        requires
            old(self).ok(),
        ensures
            final(self).ok(),
            final(self).sheet() == old(self).sheet().entry(owner@),
    {
        self.prog.entry.push((Proc::of(owner.to_owned()),));
        proof {
            assert(self.sheet() =~= old(self).sheet().entry(owner@));
        }
    }

    pub fn implements(&mut self, ty: &str, imp: &str)
        requires
            old(self).ok(),
        ensures
            final(self).ok(),
            final(self).sheet() == old(self).sheet().implements(ty@, imp@),
    {
        self.prog.direct_subtype.push((Type::of(ty.to_owned()), Type::of("I".to_owned())));
        self.prog.lookup.push(
            (
                Type::of(ty.to_owned()),
                Sig::of("poly(Obj)".to_owned()),
                Proc::of(imp.to_owned()),
            ),
        );
        self.prog.proc_sig.push((Proc::of(imp.to_owned()), Sig::of("poly(Obj)".to_owned())));
        proof {
            assert(self.sheet() =~= old(self).sheet().implements(ty@, imp@));
        }
    }
}

/// There are no more lines than statements.
proof fn lemma_lines_bound(v: Seq<(Name, Name, usize)>, owner: Name)
    ensures
        lines_of(v, owner) <= v.len(),
    decreases v.len(),
{
    if v.len() > 0 {
        lemma_lines_bound(v.drop_last(), owner);
    }
}

// ---------------------------------------------------------------------------
// Relations from text
// ---------------------------------------------------------------------------

pub open spec fn one_texts(v: Seq<&str>) -> Seq<Name> {
    Seq::new(v.len(), |i: int| v[i]@)
}

/// The relation that some text spells.
pub fn one_facts<A: Symbol>(v: &Vec<&str>) -> (r: Vec<(A,)>)
    ensures
        one_list(r@) == one_texts(v@),
{
    let mut r: Vec<(A,)> = Vec::new();
    let mut i: usize = 0;
    while i < v.len()
        invariant
            i <= v@.len(),
            r@.len() == i,
            forall|j: int| 0 <= j < i ==> one_view(#[trigger] r@[j]) == one_texts(v@)[j],
        decreases v@.len() - i,
    {
        let x = (A::of(v[i].to_owned()),);
        r.push(x);
        i += 1;
    }
    proof {
        assert(one_list(r@) =~= one_texts(v@));
    }
    r
}

pub open spec fn two_texts(v: Seq<(&str, &str)>) -> Seq<(Name, Name)> {
    Seq::new(v.len(), |i: int| (v[i].0@, v[i].1@))
}

/// The relation that some text spells.
pub fn two_facts<A: Symbol, B: Symbol>(v: &Vec<(&str, &str)>) -> (r: Vec<(A, B)>)
    ensures
        two_list(r@) == two_texts(v@),
{
    let mut r: Vec<(A, B)> = Vec::new();
    let mut i: usize = 0;
    while i < v.len()
        invariant
            i <= v@.len(),
            r@.len() == i,
            forall|j: int| 0 <= j < i ==> two_view(#[trigger] r@[j]) == two_texts(v@)[j],
        decreases v@.len() - i,
    {
        let x = (A::of(v[i].0.to_owned()), B::of(v[i].1.to_owned()));
        r.push(x);
        i += 1;
    }
    proof {
        assert(two_list(r@) =~= two_texts(v@));
    }
    r
}

pub open spec fn placed_texts(v: Seq<(&str, &str, usize)>) -> Seq<(Name, Name, usize)> {
    Seq::new(v.len(), |i: int| (v[i].0@, v[i].1@, v[i].2))
}

/// The relation that some text spells.
pub fn placed_facts<A: Symbol, B: Symbol>(v: &Vec<(&str, &str, usize)>) -> (r: Vec<(A, B, usize)>)
    ensures
        placed_list(r@) == placed_texts(v@),
{
    let mut r: Vec<(A, B, usize)> = Vec::new();
    let mut i: usize = 0;
    while i < v.len()
        invariant
            i <= v@.len(),
            r@.len() == i,
            forall|j: int| 0 <= j < i ==> placed_view(#[trigger] r@[j]) == placed_texts(v@)[j],
        decreases v@.len() - i,
    {
        let x = (A::of(v[i].0.to_owned()), B::of(v[i].1.to_owned()), v[i].2);
        r.push(x);
        i += 1;
    }
    proof {
        assert(placed_list(r@) =~= placed_texts(v@));
    }
    r
}

pub open spec fn three_texts(v: Seq<(&str, &str, &str)>) -> Seq<(Name, Name, Name)> {
    Seq::new(v.len(), |i: int| (v[i].0@, v[i].1@, v[i].2@))
}

/// The relation that some text spells.
pub fn three_facts<A: Symbol, B: Symbol,
    C: Symbol>(v: &Vec<(&str, &str, &str)>) -> (r: Vec<(A, B, C)>)
    ensures
        three_list(r@) == three_texts(v@),
{
    let mut r: Vec<(A, B, C)> = Vec::new();
    let mut i: usize = 0;
    while i < v.len()
        invariant
            i <= v@.len(),
            r@.len() == i,
            forall|j: int| 0 <= j < i ==> three_view(#[trigger] r@[j]) == three_texts(v@)[j],
        decreases v@.len() - i,
    {
        let x = (A::of(v[i].0.to_owned()), B::of(v[i].1.to_owned()), C::of(v[i].2.to_owned()));
        r.push(x);
        i += 1;
    }
    proof {
        assert(three_list(r@) =~= three_texts(v@));
    }
    r
}

pub open spec fn four_texts(v: Seq<(&str, &str, &str, &str)>) -> Seq<(Name, Name, Name, Name)> {
    Seq::new(v.len(), |i: int| (v[i].0@, v[i].1@, v[i].2@, v[i].3@))
}

/// The relation that some text spells.
pub fn four_facts<A: Symbol, B: Symbol, C: Symbol,
    D: Symbol>(v: &Vec<(&str, &str, &str, &str)>) -> (r: Vec<(A, B, C, D)>)
    ensures
        four_list(r@) == four_texts(v@),
{
    let mut r: Vec<(A, B, C, D)> = Vec::new();
    let mut i: usize = 0;
    while i < v.len()
        invariant
            i <= v@.len(),
            r@.len() == i,
            forall|j: int| 0 <= j < i ==> four_view(#[trigger] r@[j]) == four_texts(v@)[j],
        decreases v@.len() - i,
    {
        let x = (A::of(v[i].0.to_owned()), B::of(v[i].1.to_owned()), C::of(v[i].2.to_owned()),
            D::of(v[i].3.to_owned()));
        r.push(x);
        i += 1;
    }
    proof {
        assert(four_list(r@) =~= four_texts(v@));
    }
    r
}

pub open spec fn indexed_texts(v: Seq<(&str, usize, &str)>) -> Seq<(Name, usize, Name)> {
    Seq::new(v.len(), |i: int| (v[i].0@, v[i].1, v[i].2@))
}

/// The relation that some text spells.
pub fn indexed_facts<A: Symbol, B: Symbol>(v: &Vec<(&str, usize, &str)>) -> (r: Vec<(A, usize, B)>)
    ensures
        indexed_list(r@) == indexed_texts(v@),
{
    let mut r: Vec<(A, usize, B)> = Vec::new();
    let mut i: usize = 0;
    while i < v.len()
        invariant
            i <= v@.len(),
            r@.len() == i,
            forall|j: int| 0 <= j < i ==> indexed_view(#[trigger] r@[j]) == indexed_texts(v@)[j],
        decreases v@.len() - i,
    {
        let x = (A::of(v[i].0.to_owned()), v[i].1, B::of(v[i].2.to_owned()));
        r.push(x);
        i += 1;
    }
    proof {
        assert(indexed_list(r@) =~= indexed_texts(v@));
    }
    r
}

} // verus!
