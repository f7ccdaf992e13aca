//! What an import becomes: which facts the program lists, and where each comes from.
use vstd::prelude::*;

use crate::cir::{CirProgram, FunctionData, VirtualMethodTable};
use crate::codes::initial;
use crate::ctadl::{self, import_edb, Options};
use crate::dispatch;
use crate::hierarchy;
use crate::ir::{Name, Program, Symbol};
use crate::ledger::{self, noted, Entry, Kind};
use crate::lower::Pen;
use crate::lowering;
use crate::rows::{self, Datum};
use crate::text::decimal;
use crate::tuples::tuples;

verus! {

// ---------------------------------------------------------------------------
// Facts and notes
// ---------------------------------------------------------------------------

proof fn lemma_one<A: Symbol>(v: Seq<(A,)>, a: Name)
    ensures
        tuples(v).contains((a,)) <==> rows::one_rows(v).contains(seq![Datum::Text(a)]),
{
    if tuples(v).contains((a,)) {
        let j = choose|j: int| 0 <= j < v.len() && (#[trigger] v[j])@ == (a,);
        assert(rows::one_rows(v)[j] =~= seq![Datum::Text(a)]);
    }
    if rows::one_rows(v).contains(seq![Datum::Text(a)]) {
        let j = choose|j: int|
            0 <= j < rows::one_rows(v).len() && rows::one_rows(v)[j] == seq![Datum::Text(a)];
        assert(rows::one_rows(v)[j][0] == seq![Datum::Text(a)][0]);
        assert(v[j]@ == (a,));
    }
}

proof fn lemma_two<A: Symbol, B: Symbol>(v: Seq<(A, B)>, a: Name, b: Name)
    ensures
        tuples(v).contains((a, b))
            <==> rows::two_rows(v).contains(seq![Datum::Text(a), Datum::Text(b)]),
{
    if tuples(v).contains((a, b)) {
        let j = choose|j: int| 0 <= j < v.len() && (#[trigger] v[j])@ == (a, b);
        assert(rows::two_rows(v)[j] =~= seq![Datum::Text(a), Datum::Text(b)]);
    }
    if rows::two_rows(v).contains(seq![Datum::Text(a), Datum::Text(b)]) {
        let j = choose|j: int|
            0 <= j < rows::two_rows(v).len()
                && rows::two_rows(v)[j] == seq![Datum::Text(a), Datum::Text(b)];
        assert(rows::two_rows(v)[j][0] == seq![Datum::Text(a), Datum::Text(b)][0]);
        assert(rows::two_rows(v)[j][1] == seq![Datum::Text(a), Datum::Text(b)][1]);
        assert(v[j]@ == (a, b));
    }
}

proof fn lemma_three<A: Symbol, B: Symbol, C: Symbol>(v: Seq<(A, B, C)>, a: Name, b: Name, c: Name)
    ensures
        tuples(v).contains((a, b, c))
            <==> rows::three_rows(v).contains(seq![Datum::Text(a), Datum::Text(b), Datum::Text(c)]),
{
    if tuples(v).contains((a, b, c)) {
        let j = choose|j: int| 0 <= j < v.len() && (#[trigger] v[j])@ == (a, b, c);
        assert(rows::three_rows(v)[j] =~= seq![Datum::Text(a), Datum::Text(b), Datum::Text(c)]);
    }
    if rows::three_rows(v).contains(seq![Datum::Text(a), Datum::Text(b), Datum::Text(c)]) {
        let j = choose|j: int|
            0 <= j < rows::three_rows(v).len()
                && rows::three_rows(v)[j] == seq![Datum::Text(a), Datum::Text(b), Datum::Text(c)];
        assert(rows::three_rows(v)[j][0] == seq![Datum::Text(a), Datum::Text(b),
            Datum::Text(c)][0]);
        assert(rows::three_rows(v)[j][1] == seq![Datum::Text(a), Datum::Text(b),
            Datum::Text(c)][1]);
        assert(rows::three_rows(v)[j][2] == seq![Datum::Text(a), Datum::Text(b),
            Datum::Text(c)][2]);
        assert(v[j]@ == (a, b, c));
    }
}

proof fn lemma_four<A: Symbol, B: Symbol, C: Symbol,
    D: Symbol>(v: Seq<(A, B, C, D)>, a: Name, b: Name, c: Name, d: Name)
    ensures
        tuples(v).contains((a, b, c, d))
            <==> rows::four_rows(v).contains(seq![Datum::Text(a), Datum::Text(b), Datum::Text(c),
            Datum::Text(d)]),
{
    if tuples(v).contains((a, b, c, d)) {
        let j = choose|j: int| 0 <= j < v.len() && (#[trigger] v[j])@ == (a, b, c, d);
        assert(rows::four_rows(v)[j] =~= seq![Datum::Text(a), Datum::Text(b), Datum::Text(c),
            Datum::Text(d)]);
    }
    if rows::four_rows(v).contains(seq![Datum::Text(a), Datum::Text(b), Datum::Text(c),
        Datum::Text(d)]) {
        let j = choose|j: int|
            0 <= j < rows::four_rows(v).len()
                && rows::four_rows(v)[j] == seq![Datum::Text(a), Datum::Text(b), Datum::Text(c),
                Datum::Text(d)];
        assert(rows::four_rows(v)[j][0] == seq![Datum::Text(a), Datum::Text(b), Datum::Text(c),
            Datum::Text(d)][0]);
        assert(rows::four_rows(v)[j][1] == seq![Datum::Text(a), Datum::Text(b), Datum::Text(c),
            Datum::Text(d)][1]);
        assert(rows::four_rows(v)[j][2] == seq![Datum::Text(a), Datum::Text(b), Datum::Text(c),
            Datum::Text(d)][2]);
        assert(rows::four_rows(v)[j][3] == seq![Datum::Text(a), Datum::Text(b), Datum::Text(c),
            Datum::Text(d)][3]);
        assert(v[j]@ == (a, b, c, d));
    }
}

proof fn lemma_indexed<A: Symbol, C: Symbol>(v: Seq<(A, usize, C)>, a: Name, i: usize, c: Name)
    ensures
        tuples(v).contains((a, i, c))
            <==> rows::indexed_rows(v).contains(seq![Datum::Text(a), Datum::Num(i),
            Datum::Text(c)]),
{
    if tuples(v).contains((a, i, c)) {
        let j = choose|j: int| 0 <= j < v.len() && (#[trigger] v[j])@ == (a, i, c);
        assert(rows::indexed_rows(v)[j] =~= seq![Datum::Text(a), Datum::Num(i), Datum::Text(c)]);
    }
    if rows::indexed_rows(v).contains(seq![Datum::Text(a), Datum::Num(i), Datum::Text(c)]) {
        let j = choose|j: int|
            0 <= j < rows::indexed_rows(v).len()
                && rows::indexed_rows(v)[j] == seq![Datum::Text(a), Datum::Num(i), Datum::Text(c)];
        assert(rows::indexed_rows(v)[j][0] == seq![Datum::Text(a), Datum::Num(i),
            Datum::Text(c)][0]);
        assert(rows::indexed_rows(v)[j][1] == seq![Datum::Text(a), Datum::Num(i),
            Datum::Text(c)][1]);
        assert(rows::indexed_rows(v)[j][2] == seq![Datum::Text(a), Datum::Num(i),
            Datum::Text(c)][2]);
        assert(v[j]@ == (a, i, c));
    }
}

proof fn lemma_placed<A: Symbol, B: Symbol>(v: Seq<(A, B, usize)>, a: Name, b: Name, i: usize)
    ensures
        tuples(v).contains((a, b, i))
            <==> rows::placed_rows(v).contains(seq![Datum::Text(a), Datum::Text(b), Datum::Num(i)]),
{
    if tuples(v).contains((a, b, i)) {
        let j = choose|j: int| 0 <= j < v.len() && (#[trigger] v[j])@ == (a, b, i);
        assert(rows::placed_rows(v)[j] =~= seq![Datum::Text(a), Datum::Text(b), Datum::Num(i)]);
    }
    if rows::placed_rows(v).contains(seq![Datum::Text(a), Datum::Text(b), Datum::Num(i)]) {
        let j = choose|j: int|
            0 <= j < rows::placed_rows(v).len()
                && rows::placed_rows(v)[j] == seq![Datum::Text(a), Datum::Text(b), Datum::Num(i)];
        assert(rows::placed_rows(v)[j][0] == seq![Datum::Text(a), Datum::Text(b),
            Datum::Num(i)][0]);
        assert(rows::placed_rows(v)[j][1] == seq![Datum::Text(a), Datum::Text(b),
            Datum::Num(i)][1]);
        assert(rows::placed_rows(v)[j][2] == seq![Datum::Text(a), Datum::Text(b),
            Datum::Num(i)][2]);
        assert(v[j]@ == (a, b, i));
    }
}

/// The notes of an import.
pub open spec fn notes(cir: CirProgram, vmt: VirtualMethodTable, opts: Options) -> Seq<Entry> {
    ctadl::imported(Seq::empty(), opts.compact_names, 0, cir, vmt)
}

/// Every note of a relation is a fact of it, and every fact was noted.
pub proof fn law_facts_are_the_notes(
    cir: CirProgram,
    vmt: &VirtualMethodTable,
    opts: Options,
    prog: Program,
    a: Name,
    b: Name,
    c: Name,
    d: Name,
    i: usize,
)
    requires
        call_ensures(import_edb, (cir, vmt, opts), prog),
    ensures
        tuples(prog.procedure@).contains((a,)) <==> notes(cir, *vmt, opts).contains(
            (Entry { kind: Kind::Procedure, row: seq![Datum::Text(a)] }),
        ),
        tuples(prog.proc_type@).contains((a, b)) <==> notes(cir, *vmt, opts).contains(
            (Entry { kind: Kind::ProcType, row: seq![Datum::Text(a), Datum::Text(b)] }),
        ),
        tuples(prog.alloc@).contains((a, b, c)) <==> notes(cir, *vmt, opts).contains(
            (Entry { kind: Kind::Alloc,
                row: seq![Datum::Text(a), Datum::Text(b), Datum::Text(c)] }),
        ),
        tuples(prog.alloc_type@).contains((a, b)) <==> notes(cir, *vmt, opts).contains(
            (Entry { kind: Kind::AllocType, row: seq![Datum::Text(a), Datum::Text(b)] }),
        ),
        tuples(prog.const_assign@).contains((a, b, c)) <==> notes(cir, *vmt, opts).contains(
            (Entry { kind: Kind::ConstAssign,
                row: seq![Datum::Text(a), Datum::Text(b), Datum::Text(c)] }),
        ),
        tuples(prog.mov@).contains((a, b, c)) <==> notes(cir, *vmt, opts).contains(
            (Entry { kind: Kind::Mov, row: seq![Datum::Text(a), Datum::Text(b), Datum::Text(c)] }),
        ),
        tuples(prog.load_field@).contains((a, b, c, d)) <==> notes(cir, *vmt, opts).contains(
            (Entry { kind: Kind::LoadField,
                row: seq![Datum::Text(a), Datum::Text(b), Datum::Text(c), Datum::Text(d)] }),
        ),
        tuples(prog.store_field@).contains((a, b, c, d)) <==> notes(cir, *vmt, opts).contains(
            (Entry { kind: Kind::StoreField,
                row: seq![Datum::Text(a), Datum::Text(b), Datum::Text(c), Datum::Text(d)] }),
        ),
        tuples(prog.load_static@).contains((a, b, c, d)) <==> notes(cir, *vmt, opts).contains(
            (Entry { kind: Kind::LoadStatic,
                row: seq![Datum::Text(a), Datum::Text(b), Datum::Text(c), Datum::Text(d)] }),
        ),
        tuples(prog.store_static@).contains((a, b, c, d)) <==> notes(cir, *vmt, opts).contains(
            (Entry { kind: Kind::StoreStatic,
                row: seq![Datum::Text(a), Datum::Text(b), Datum::Text(c), Datum::Text(d)] }),
        ),
        tuples(prog.load_index_const@).contains((a, b, c, d)) <==> notes(cir, *vmt, opts).contains(
            (Entry { kind: Kind::LoadIndexConst,
                row: seq![Datum::Text(a), Datum::Text(b), Datum::Text(c), Datum::Text(d)] }),
        ),
        tuples(prog.store_index_const@).contains((a, b, c, d)) <==> notes(cir, *vmt, opts).contains(
            (Entry { kind: Kind::StoreIndexConst,
                row: seq![Datum::Text(a), Datum::Text(b), Datum::Text(c), Datum::Text(d)] }),
        ),
        tuples(prog.direct_call@).contains((a, b)) <==> notes(cir, *vmt, opts).contains(
            (Entry { kind: Kind::DirectCall, row: seq![Datum::Text(a), Datum::Text(b)] }),
        ),
        tuples(prog.virtual_call@).contains((a, b, c)) <==> notes(cir, *vmt, opts).contains(
            (Entry { kind: Kind::VirtualCall,
                row: seq![Datum::Text(a), Datum::Text(b), Datum::Text(c)] }),
        ),
        tuples(prog.actual_arg@).contains((a, i, c)) <==> notes(cir, *vmt, opts).contains(
            (Entry { kind: Kind::ActualArg,
                row: seq![Datum::Text(a), Datum::Num(i), Datum::Text(c)] }),
        ),
        tuples(prog.bind_ret@).contains((a, b)) <==> notes(cir, *vmt, opts).contains(
            (Entry { kind: Kind::BindRet, row: seq![Datum::Text(a), Datum::Text(b)] }),
        ),
        tuples(prog.formal@).contains((a, i, c)) <==> notes(cir, *vmt, opts).contains(
            (Entry { kind: Kind::Formal,
                row: seq![Datum::Text(a), Datum::Num(i), Datum::Text(c)] }),
        ),
        tuples(prog.ret@).contains((a, b)) <==> notes(cir, *vmt, opts).contains(
            (Entry { kind: Kind::Ret, row: seq![Datum::Text(a), Datum::Text(b)] }),
        ),
        tuples(prog.direct_subtype@).contains((a, b)) <==> notes(cir, *vmt, opts).contains(
            (Entry { kind: Kind::Extends, row: seq![Datum::Text(a), Datum::Text(b)] }),
        ),
        tuples(prog.in_proc@).contains((a, b, i)) <==> notes(cir, *vmt, opts).contains(
            (Entry {
                kind: Kind::InProc,
                row: seq![Datum::Text(a), Datum::Text(b), Datum::Num(i)],
            }),
        ),
        prog.load_index_var@.len() == 0,
        prog.store_index_var@.len() == 0,
        prog.paths@.len() == 0,
{
    let log = notes(cir, *vmt, opts);
    assert(ctadl::translates(prog, log, opts.cha_fallback));
    lemma_one(prog.procedure@, a);
    assert(ledger::relation(log, Kind::Procedure).contains(seq![Datum::Text(a)])
        <==> rows::one_rows(
        prog.procedure@,
    ).contains(seq![Datum::Text(a)]));
    lemma_two(prog.proc_type@, a, b);
    assert(ledger::relation(log, Kind::ProcType).contains(seq![Datum::Text(a), Datum::Text(b)])
        <==> rows::two_rows(
        prog.proc_type@,
    ).contains(seq![Datum::Text(a), Datum::Text(b)]));
    lemma_three(prog.alloc@, a, b, c);
    assert(ledger::relation(log,
        Kind::Alloc).contains(seq![Datum::Text(a), Datum::Text(b), Datum::Text(c)])
        <==> rows::three_rows(
        prog.alloc@,
    ).contains(seq![Datum::Text(a), Datum::Text(b), Datum::Text(c)]));
    lemma_two(prog.alloc_type@, a, b);
    assert(ledger::relation(log, Kind::AllocType).contains(seq![Datum::Text(a), Datum::Text(b)])
        <==> rows::two_rows(
        prog.alloc_type@,
    ).contains(seq![Datum::Text(a), Datum::Text(b)]));
    lemma_three(prog.const_assign@, a, b, c);
    assert(ledger::relation(log,
        Kind::ConstAssign).contains(seq![Datum::Text(a), Datum::Text(b), Datum::Text(c)])
        <==> rows::three_rows(
        prog.const_assign@,
    ).contains(seq![Datum::Text(a), Datum::Text(b), Datum::Text(c)]));
    lemma_three(prog.mov@, a, b, c);
    assert(ledger::relation(log,
        Kind::Mov).contains(seq![Datum::Text(a), Datum::Text(b), Datum::Text(c)])
        <==> rows::three_rows(
        prog.mov@,
    ).contains(seq![Datum::Text(a), Datum::Text(b), Datum::Text(c)]));
    lemma_four(prog.load_field@, a, b, c, d);
    assert(ledger::relation(log,
        Kind::LoadField).contains(seq![Datum::Text(a), Datum::Text(b), Datum::Text(c),
        Datum::Text(d)]) <==> rows::four_rows(
        prog.load_field@,
    ).contains(seq![Datum::Text(a), Datum::Text(b), Datum::Text(c), Datum::Text(d)]));
    lemma_four(prog.store_field@, a, b, c, d);
    assert(ledger::relation(log,
        Kind::StoreField).contains(seq![Datum::Text(a), Datum::Text(b), Datum::Text(c),
        Datum::Text(d)]) <==> rows::four_rows(
        prog.store_field@,
    ).contains(seq![Datum::Text(a), Datum::Text(b), Datum::Text(c), Datum::Text(d)]));
    lemma_four(prog.load_static@, a, b, c, d);
    assert(ledger::relation(log,
        Kind::LoadStatic).contains(seq![Datum::Text(a), Datum::Text(b), Datum::Text(c),
        Datum::Text(d)]) <==> rows::four_rows(
        prog.load_static@,
    ).contains(seq![Datum::Text(a), Datum::Text(b), Datum::Text(c), Datum::Text(d)]));
    lemma_four(prog.store_static@, a, b, c, d);
    assert(ledger::relation(log,
        Kind::StoreStatic).contains(seq![Datum::Text(a), Datum::Text(b), Datum::Text(c),
        Datum::Text(d)]) <==> rows::four_rows(
        prog.store_static@,
    ).contains(seq![Datum::Text(a), Datum::Text(b), Datum::Text(c), Datum::Text(d)]));
    lemma_four(prog.load_index_const@, a, b, c, d);
    assert(ledger::relation(log,
        Kind::LoadIndexConst).contains(seq![Datum::Text(a), Datum::Text(b), Datum::Text(c),
        Datum::Text(d)]) <==> rows::four_rows(
        prog.load_index_const@,
    ).contains(seq![Datum::Text(a), Datum::Text(b), Datum::Text(c), Datum::Text(d)]));
    lemma_four(prog.store_index_const@, a, b, c, d);
    assert(ledger::relation(log,
        Kind::StoreIndexConst).contains(seq![Datum::Text(a), Datum::Text(b), Datum::Text(c),
        Datum::Text(d)]) <==> rows::four_rows(
        prog.store_index_const@,
    ).contains(seq![Datum::Text(a), Datum::Text(b), Datum::Text(c), Datum::Text(d)]));
    lemma_two(prog.direct_call@, a, b);
    assert(ledger::relation(log, Kind::DirectCall).contains(seq![Datum::Text(a), Datum::Text(b)])
        <==> rows::two_rows(
        prog.direct_call@,
    ).contains(seq![Datum::Text(a), Datum::Text(b)]));
    lemma_three(prog.virtual_call@, a, b, c);
    assert(ledger::relation(log,
        Kind::VirtualCall).contains(seq![Datum::Text(a), Datum::Text(b), Datum::Text(c)])
        <==> rows::three_rows(
        prog.virtual_call@,
    ).contains(seq![Datum::Text(a), Datum::Text(b), Datum::Text(c)]));
    lemma_indexed(prog.actual_arg@, a, i, c);
    assert(ledger::relation(log,
        Kind::ActualArg).contains(seq![Datum::Text(a), Datum::Num(i), Datum::Text(c)])
        <==> rows::indexed_rows(
        prog.actual_arg@,
    ).contains(seq![Datum::Text(a), Datum::Num(i), Datum::Text(c)]));
    lemma_two(prog.bind_ret@, a, b);
    assert(ledger::relation(log, Kind::BindRet).contains(seq![Datum::Text(a), Datum::Text(b)])
        <==> rows::two_rows(
        prog.bind_ret@,
    ).contains(seq![Datum::Text(a), Datum::Text(b)]));
    lemma_indexed(prog.formal@, a, i, c);
    assert(ledger::relation(log,
        Kind::Formal).contains(seq![Datum::Text(a), Datum::Num(i), Datum::Text(c)])
        <==> rows::indexed_rows(
        prog.formal@,
    ).contains(seq![Datum::Text(a), Datum::Num(i), Datum::Text(c)]));
    lemma_two(prog.ret@, a, b);
    assert(ledger::relation(log, Kind::Ret).contains(seq![Datum::Text(a), Datum::Text(b)])
        <==> rows::two_rows(
        prog.ret@,
    ).contains(seq![Datum::Text(a), Datum::Text(b)]));
    lemma_two(prog.direct_subtype@, a, b);
    assert(ledger::relation(log, Kind::Extends).contains(seq![Datum::Text(a), Datum::Text(b)])
        <==> rows::two_rows(
        prog.direct_subtype@,
    ).contains(seq![Datum::Text(a), Datum::Text(b)]));
    lemma_placed(prog.in_proc@, a, b, i);
    ledger::lemma_noted(log, Kind::InProc, seq![Datum::Text(a), Datum::Text(b), Datum::Num(i)]);
}

// ---------------------------------------------------------------------------
// Dispatch
// ---------------------------------------------------------------------------

/// A receiver of class `t`, which is or extends `cls`, has the method, and inherits the
/// implementation `p` of it.
pub open spec fn has_method(
    log: Seq<Entry>,
    cls: Name,
    name: Name,
    desc: Name,
    t: Name,
    p: Name,
) -> bool {
    &&& exists|names: Seq<Name>|
        #[trigger] hierarchy::ascent(noted(log, Kind::Extends), names) && names[0] == t
            && names.last() == cls
    &&& hierarchy::inherited(
        noted(log, Kind::Declares),
        noted(log, Kind::Extends),
        t,
        name,
        desc,
    ) == Some(p)
}

/// A call on a declared class dispatches the class, the name and the descriptor; what it
/// selects is what the classes at or below the declared one inherit, or, with the
/// fallback and where none of them has the method, whatever class declares it.
pub open spec fn class_call(
    log: Seq<Entry>,
    fallback: bool,
    t: Name,
    sig: Name,
    p: Name,
    cls: Name,
    name: Name,
    desc: Name,
) -> bool {
    &&& log.contains(
        (Entry {
            kind: Kind::ClassSite,
            row: seq![Datum::Text(cls), Datum::Text(name), Datum::Text(desc)],
        }),
    )
    &&& sig == cls + "->"@ + name + desc
    &&& {
        ||| has_method(log, cls, name, desc, t, p)
        ||| {
            &&& fallback
            &&& forall|u: Name, q: Name| !has_method(log, cls, name, desc, u, q)
            &&& log.contains(
                (Entry {
                    kind: Kind::Declares,
                    row: seq![
                        Datum::Text(t),
                        Datum::Text(name),
                        Datum::Text(desc),
                        Datum::Text(p),
                    ],
                }),
            )
        }
    }
}

/// A call by name alone selects whatever class declares the name.
pub open spec fn name_call(log: Seq<Entry>, t: Name, sig: Name, p: Name, name: Name) -> bool {
    &&& log.contains((Entry { kind: Kind::LuaSite, row: seq![Datum::Text(name)] }))
    &&& sig == "lua->"@ + name
    &&& log.contains(
        (Entry {
            kind: Kind::Declares,
            row: seq![
                Datum::Text(t),
                Datum::Text(name),
                Datum::Text(Seq::empty()),
                Datum::Text(p),
            ],
        }),
    )
}

/// A call through a pointer selects whatever function had its address taken.
pub open spec fn pointer_call(log: Seq<Entry>, t: Name, sig: Name, p: Name, own: Name) -> bool {
    &&& log.contains((Entry { kind: Kind::PointerSite, row: seq![Datum::Text(own)] }))
    &&& sig == (if own.len() == 0 {
        "$fnptr"@
    } else {
        "$fnptr("@ + own + ")"@
    })
    &&& log.contains((Entry { kind: Kind::Taken, row: seq![Datum::Text(p)] }))
    &&& t == "$fn:"@ + p
}

proof fn lemma_has_method(log: Seq<Entry>, cls: Name, name: Name, desc: Name, t: Name, p: Name)
    requires
        noted(log, Kind::Extends).len() <= usize::MAX,
    ensures
        has_method(log, cls, name, desc, t, p) <==> dispatch::class_target(
            log,
            cls,
            name,
            desc,
            t,
            p,
        ),
{
    hierarchy::law_below_is_extending(noted(log, Kind::Extends), cls, t);
}

proof fn lemma_class_call(
    log: Seq<Entry>,
    fallback: bool,
    t: Name,
    sig: Name,
    p: Name,
    cls: Name,
    name: Name,
    desc: Name,
)
    requires
        noted(log, Kind::Extends).len() <= usize::MAX,
    ensures
        class_call(log, fallback, t, sig, p, cls, name, desc) <==> ledger::relation(
            log,
            Kind::ClassSite,
        ).contains(rows::three_row(cls, name, desc)) && sig == crate::lower::class_sig(
            cls,
            name,
            desc,
        ) && dispatch::class_selects(log, fallback, cls, name, desc, t, p),
{
    lemma_has_method(log, cls, name, desc, t, p);
    assert(dispatch::class_known(log, cls, name, desc) <==> exists|u: Name, q: Name|
        has_method(log, cls, name, desc, u, q)) by {
        if dispatch::class_known(log, cls, name, desc) {
            let (u, q) = choose|u: Name, q: Name|
                dispatch::class_target(log, cls, name, desc, u, q);
            lemma_has_method(log, cls, name, desc, u, q);
            assert(has_method(log, cls, name, desc, u, q));
        }
        if exists|u: Name, q: Name| has_method(log, cls, name, desc, u, q) {
            let (u, q) = choose|u: Name, q: Name| has_method(log, cls, name, desc, u, q);
            lemma_has_method(log, cls, name, desc, u, q);
            assert(dispatch::class_target(log, cls, name, desc, u, q));
        }
    }
}

/// The lookup facts are what the calls select: those on a declared class, those by name
/// alone and those through a pointer, each by its own rule, and nothing else.
pub proof fn law_lookups_are_what_calls_select(
    cir: CirProgram,
    vmt: &VirtualMethodTable,
    opts: Options,
    prog: Program,
    t: Name,
    sig: Name,
    p: Name,
)
    requires
        call_ensures(import_edb, (cir, vmt, opts), prog),
        noted(notes(cir, *vmt, opts), Kind::Extends).len() <= usize::MAX,
    ensures
        tuples(prog.lookup@).contains((t, sig, p)) <==> {
            ||| exists|cls: Name, name: Name, desc: Name|
                class_call(
                    notes(cir, *vmt, opts),
                    opts.cha_fallback,
                    t,
                    sig,
                    p,
                    cls,
                    name,
                    desc,
                )
            ||| exists|name: Name| name_call(notes(cir, *vmt, opts), t, sig, p, name)
            ||| exists|own: Name| pointer_call(notes(cir, *vmt, opts), t, sig, p, own)
        },
{
    let log = notes(cir, *vmt, opts);
    let fallback = opts.cha_fallback;
    assert(ctadl::translates(prog, log, fallback));
    lemma_three(prog.lookup@, t, sig, p);
    let row = rows::three_row(t, sig, p);
    assert(row == seq![Datum::Text(t), Datum::Text(sig), Datum::Text(p)]);
    assert(dispatch::lookup(log, fallback).contains(row) <==> rows::three_rows(
        prog.lookup@,
    ).contains(row));
    assert(dispatch::lookup(log, fallback).contains(row) <==> dispatch::selects(
        log,
        fallback,
        t,
        sig,
        p,
    )) by {
        if dispatch::lookup(log, fallback).contains(row) {
            let (x, y, z) = choose|x: Name, y: Name, z: Name|
                row == #[trigger] rows::three_row(x, y, z) && dispatch::selects(
                    log,
                    fallback,
                    x,
                    y,
                    z,
                );
            assert(row[0] == Datum::Text(x) && row[1] == Datum::Text(y) && row[2] == Datum::Text(
                z,
            ));
        }
    }
    if dispatch::by_class(log, fallback, t, sig, p) {
        let (cls, name, desc) = choose|cls: Name, name: Name, desc: Name|
            ledger::relation(log, Kind::ClassSite).contains(
                #[trigger] rows::three_row(cls, name, desc),
            ) && sig == crate::lower::class_sig(cls, name, desc) && dispatch::class_selects(
                log,
                fallback,
                cls,
                name,
                desc,
                t,
                p,
            );
        lemma_class_call(log, fallback, t, sig, p, cls, name, desc);
        assert(class_call(log, fallback, t, sig, p, cls, name, desc));
    }
    if exists|cls: Name, name: Name, desc: Name|
        class_call(log, fallback, t, sig, p, cls, name, desc) {
        let (cls, name, desc) = choose|cls: Name, name: Name, desc: Name|
            class_call(log, fallback, t, sig, p, cls, name, desc);
        lemma_class_call(log, fallback, t, sig, p, cls, name, desc);
        let x = rows::three_row(cls, name, desc);
        assert(dispatch::by_class(log, fallback, t, sig, p));
    }
    if dispatch::by_name(log, t, sig, p) {
        let name = choose|name: Name|
            ledger::relation(log, Kind::LuaSite).contains(#[trigger] rows::one_row(name)) && sig
                == crate::lower::lua_sig(name) && ledger::relation(log, Kind::Declares).contains(
                rows::four_row(t, name, Seq::empty(), p),
            );
        assert(name_call(log, t, sig, p, name));
    }
    if exists|name: Name| name_call(log, t, sig, p, name) {
        let name = choose|name: Name| name_call(log, t, sig, p, name);
        let x = rows::one_row(name);
        assert(ledger::relation(log, Kind::LuaSite).contains(x));
        assert(dispatch::by_name(log, t, sig, p));
    }
    if dispatch::by_pointer(log, t, sig, p) {
        let own = choose|own: Name|
            ledger::relation(log, Kind::PointerSite).contains(#[trigger] rows::one_row(own)) && sig
                == crate::lower::pointer_sig(own) && ledger::relation(log, Kind::Taken).contains(
                rows::one_row(p),
            ) && t == crate::lower::pointer_type(p);
        assert(pointer_call(log, t, sig, p, own));
    }
    if exists|own: Name| pointer_call(log, t, sig, p, own) {
        let own = choose|own: Name| pointer_call(log, t, sig, p, own);
        let x = rows::one_row(own);
        assert(ledger::relation(log, Kind::PointerSite).contains(x));
        assert(dispatch::by_pointer(log, t, sig, p));
    }
}

proof fn lemma_lookup_rows(
    prog: Program,
    log: Seq<Entry>,
    fallback: bool,
    t: Name,
    sig: Name,
    p: Name,
)
    requires
        ctadl::translates(prog, log, fallback),
    ensures
        tuples(prog.lookup@).contains((t, sig, p)) <==> dispatch::selects(
            log,
            fallback,
            t,
            sig,
            p,
        ),
{
    lemma_three(prog.lookup@, t, sig, p);
    let row = rows::three_row(t, sig, p);
    assert(row == seq![Datum::Text(t), Datum::Text(sig), Datum::Text(p)]);
    assert(dispatch::lookup(log, fallback).contains(row) <==> rows::three_rows(
        prog.lookup@,
    ).contains(row));
    if dispatch::lookup(log, fallback).contains(row) {
        let (x, y, z) = choose|x: Name, y: Name, z: Name|
            row == #[trigger] rows::three_row(x, y, z) && dispatch::selects(log, fallback, x, y, z);
        assert(row[0] == Datum::Text(x) && row[1] == Datum::Text(y) && row[2] == Datum::Text(z));
    }
}

/// A procedure implements the signatures that some receiver dispatches to it; and the
/// entries are the procedures that no direct call names and no lookup selects.
pub proof fn law_signatures_and_entries(
    cir: CirProgram,
    vmt: &VirtualMethodTable,
    opts: Options,
    prog: Program,
    sig: Name,
    p: Name,
)
    requires
        call_ensures(import_edb, (cir, vmt, opts), prog),
    ensures
        tuples(prog.proc_sig@).contains((p, sig)) <==> exists|t: Name|
            tuples(prog.lookup@).contains((t, sig, p)),
        tuples(prog.entry@).contains((p,)) <==> {
            &&& tuples(prog.procedure@).contains((p,))
            &&& forall|s: Name| !tuples(prog.direct_call@).contains((s, p))
            &&& forall|t: Name, g: Name| !tuples(prog.lookup@).contains((t, g, p))
        },
{
    let log = notes(cir, *vmt, opts);
    let fallback = opts.cha_fallback;
    assert(ctadl::translates(prog, log, fallback));
    assert forall|t: Name, g: Name, q: Name| #[trigger] tuples(prog.lookup@).contains((t, g, q))
        <==> dispatch::selects(log, fallback, t, g, q) by {
        lemma_lookup_rows(prog, log, fallback, t, g, q);
    }
    lemma_two(prog.proc_sig@, p, sig);
    let row = rows::two_row(p, sig);
    assert(row == seq![Datum::Text(p), Datum::Text(sig)]);
    assert(dispatch::proc_sig(log, fallback).contains(row) <==> rows::two_rows(
        prog.proc_sig@,
    ).contains(row));
    if dispatch::proc_sig(log, fallback).contains(row) {
        let (x, y, z) = choose|x: Name, y: Name, z: Name|
            row == rows::two_row(z, y) && #[trigger] dispatch::selects(log, fallback, x, y, z);
        assert(row[0] == Datum::Text(z) && row[1] == Datum::Text(y));
        assert(tuples(prog.lookup@).contains((x, sig, p)));
    }
    if exists|t: Name| tuples(prog.lookup@).contains((t, sig, p)) {
        let t = choose|t: Name| tuples(prog.lookup@).contains((t, sig, p));
        assert(dispatch::selects(log, fallback, t, sig, p));
    }
    lemma_one(prog.entry@, p);
    lemma_one(prog.procedure@, p);
    let own = rows::one_row(p);
    assert(own == seq![Datum::Text(p)]);
    assert(dispatch::entry(log, fallback).contains(own) <==> rows::one_rows(prog.entry@).contains(
        own,
    ));
    assert(ledger::relation(log, Kind::Procedure).contains(own) <==> rows::one_rows(
        prog.procedure@,
    ).contains(own));
    assert forall|s: Name| #[trigger] tuples(prog.direct_call@).contains((s, p))
        <==> ledger::relation(log, Kind::DirectCall).contains(rows::two_row(s, p)) by {
        lemma_two(prog.direct_call@, s, p);
        let x = rows::two_row(s, p);
        assert(x == seq![Datum::Text(s), Datum::Text(p)]);
        assert(ledger::relation(log, Kind::DirectCall).contains(x) <==> rows::two_rows(
            prog.direct_call@,
        ).contains(x));
    }
    assert(dispatch::called(log, fallback, p) <==> (exists|s: Name|
        tuples(prog.direct_call@).contains((s, p))) || exists|t: Name, g: Name|
        tuples(prog.lookup@).contains((t, g, p))) by {
        if exists|s: Name|
            ledger::relation(log, Kind::DirectCall).contains(#[trigger] rows::two_row(s, p)) {
            let s = choose|s: Name|
                ledger::relation(log, Kind::DirectCall).contains(#[trigger] rows::two_row(s, p));
            assert(tuples(prog.direct_call@).contains((s, p)));
        }
        if exists|t: Name, g: Name| dispatch::selects(log, fallback, t, g, p) {
            let (t, g) = choose|t: Name, g: Name| dispatch::selects(log, fallback, t, g, p);
            assert(tuples(prog.lookup@).contains((t, g, p)));
        }
        if exists|s: Name| tuples(prog.direct_call@).contains((s, p)) {
            let s = choose|s: Name| tuples(prog.direct_call@).contains((s, p));
            assert(ledger::relation(log, Kind::DirectCall).contains(rows::two_row(s, p)));
        }
        if exists|t: Name, g: Name| tuples(prog.lookup@).contains((t, g, p)) {
            let (t, g) = choose|t: Name, g: Name| tuples(prog.lookup@).contains((t, g, p));
            assert(dispatch::selects(log, fallback, t, g, p));
        }
    }
    if dispatch::entry(log, fallback).contains(own) {
        let q = choose|q: Name|
            own == #[trigger] rows::one_row(q) && ledger::relation(log, Kind::Procedure).contains(
                own,
            ) && !dispatch::called(log, fallback, q);
        assert(own[0] == Datum::Text(q));
    }
}

// ---------------------------------------------------------------------------
// Where the notes come from
// ---------------------------------------------------------------------------

/// The pairs of a class and what it extends, in order.
pub open spec fn extension_rows(hs: Seq<(String, Vec<String>)>) -> Seq<Seq<Datum>>
    decreases hs.len(),
{
    if hs.len() == 0 {
        Seq::empty()
    } else {
        let (sub, sups) = hs.last();
        extension_rows(hs.drop_last()) + Seq::new(
            sups@.len(),
            |i: int| seq![Datum::Text(sub@), Datum::Text(sups@[i]@)],
        )
    }
}

/// The rows of the method table: class, name, descriptor, implementation. A table without
/// descriptors has empty ones, and native code has no table.
pub open spec fn method_rows(vmt: VirtualMethodTable) -> Seq<Seq<Datum>> {
    match vmt {
        VirtualMethodTable::Java { methods, hierarchy } => Seq::new(
            methods@.len(),
            |i: int|
                seq![
                    Datum::Text(methods@[i].0@),
                    Datum::Text(methods@[i].1@),
                    Datum::Text(methods@[i].2@),
                    Datum::Text(methods@[i].3@),
                ],
        ),
        VirtualMethodTable::Lua { functions, hierarchy } => Seq::new(
            functions@.len(),
            |i: int|
                seq![
                    Datum::Text(functions@[i].0@),
                    Datum::Text(functions@[i].1@),
                    Datum::Text(Seq::empty()),
                    Datum::Text(functions@[i].2@),
                ],
        ),
        _ => Seq::empty(),
    }
}

pub open spec fn hierarchy_rows(vmt: VirtualMethodTable) -> Seq<Seq<Datum>> {
    match vmt {
        VirtualMethodTable::Java { methods, hierarchy } => extension_rows(hierarchy@),
        VirtualMethodTable::Lua { functions, hierarchy } => extension_rows(hierarchy@),
        _ => Seq::empty(),
    }
}

/// The notes of one relation, in order.
pub open spec fn entries(kind: Kind, v: Seq<Seq<Datum>>) -> Seq<Entry> {
    Seq::new(v.len(), |i: int| Entry { kind, row: v[i] })
}

proof fn lemma_extending(log: Seq<Entry>, sub: Name, sups: Seq<String>)
    ensures
        ctadl::extending(log, sub, sups) == log + entries(
            Kind::Extends,
            Seq::new(sups.len(), |i: int| seq![Datum::Text(sub), Datum::Text(sups[i]@)]),
        ),
    decreases sups.len(),
{
    let all = Seq::new(sups.len(), |i: int| seq![Datum::Text(sub), Datum::Text(sups[i]@)]);
    let done = ctadl::extending(log, sub, sups);
    if sups.len() > 0 {
        let few = sups.drop_last();
        lemma_extending(log, sub, few);
        let part = Seq::new(few.len(), |i: int| seq![Datum::Text(sub), Datum::Text(few[i]@)]);
        assert(part =~= all.drop_last());
        assert(done.last().row =~= all.last());
        assert(done =~= log + entries(Kind::Extends, all));
    } else {
        assert(done =~= log + entries(Kind::Extends, all));
    }
}

proof fn lemma_inheriting(log: Seq<Entry>, hs: Seq<(String, Vec<String>)>)
    ensures
        ctadl::inheriting(log, hs) == log + entries(Kind::Extends, extension_rows(hs)),
    decreases hs.len(),
{
    let done = ctadl::inheriting(log, hs);
    if hs.len() > 0 {
        lemma_inheriting(log, hs.drop_last());
        let m = ctadl::inheriting(log, hs.drop_last());
        lemma_extending(m, hs.last().0@, hs.last().1@);
        let (sub, sups) = hs.last();
        let a = extension_rows(hs.drop_last());
        let b = Seq::new(sups@.len(), |i: int| seq![Datum::Text(sub@), Datum::Text(sups@[i]@)]);
        assert(entries(Kind::Extends, a + b) =~= entries(Kind::Extends, a) + entries(
            Kind::Extends,
            b,
        ));
        assert(done =~= log + entries(Kind::Extends, a + b));
    } else {
        assert(done =~= log + entries(Kind::Extends, extension_rows(hs)));
    }
}

proof fn lemma_declaring(log: Seq<Entry>, ms: Seq<(String, String, String, String)>)
    ensures
        ctadl::declaring(log, ms).len() == log.len() + ms.len(),
        initial(log, ctadl::declaring(log, ms)),
        forall|i: int|
            0 <= i < ms.len() ==> #[trigger] ctadl::declaring(log, ms)[log.len() + i] == (Entry {
                kind: Kind::Declares,
                row: rows::four_row(ms[i].0@, ms[i].1@, ms[i].2@, ms[i].3@),
            }),
    decreases ms.len(),
{
    if ms.len() > 0 {
        let few = ms.drop_last();
        lemma_declaring(log, few);
        let (m, done) = (ctadl::declaring(log, few), ctadl::declaring(log, ms));
        assert forall|i: int| 0 <= i < ms.len() implies #[trigger] done[log.len() + i] == (Entry {
            kind: Kind::Declares,
            row: rows::four_row(ms[i].0@, ms[i].1@, ms[i].2@, ms[i].3@),
        }) by {
            if i < few.len() {
                assert(m[log.len() + i] == done[log.len() + i]);
            }
        }
    }
}

proof fn lemma_tabling(log: Seq<Entry>, ms: Seq<(String, String, String)>)
    ensures
        ctadl::tabling(log, ms).len() == log.len() + ms.len(),
        initial(log, ctadl::tabling(log, ms)),
        forall|i: int|
            0 <= i < ms.len() ==> #[trigger] ctadl::tabling(log, ms)[log.len() + i] == (Entry {
                kind: Kind::Declares,
                row: rows::four_row(ms[i].0@, ms[i].1@, Seq::empty(), ms[i].2@),
            }),
    decreases ms.len(),
{
    if ms.len() > 0 {
        let few = ms.drop_last();
        lemma_tabling(log, few);
        let (m, done) = (ctadl::tabling(log, few), ctadl::tabling(log, ms));
        assert forall|i: int| 0 <= i < ms.len() implies #[trigger] done[log.len() + i] == (Entry {
            kind: Kind::Declares,
            row: rows::four_row(ms[i].0@, ms[i].1@, Seq::empty(), ms[i].2@),
        }) by {
            if i < few.len() {
                assert(m[log.len() + i] == done[log.len() + i]);
            }
        }
    }
}

/// A method table is noted row for row, and after it the hierarchy, both in their order.
pub proof fn law_method_tables_are_noted(log: Seq<Entry>, vmt: VirtualMethodTable)
    ensures
        ctadl::classes(log, vmt) == log + entries(Kind::Declares, method_rows(vmt)) + entries(
            Kind::Extends,
            hierarchy_rows(vmt),
        ),
{
    let all = log + entries(Kind::Declares, method_rows(vmt)) + entries(
        Kind::Extends,
        hierarchy_rows(vmt),
    );
    match vmt {
        VirtualMethodTable::Java { methods, hierarchy } => {
            lemma_declaring(log, methods@);
            let m = ctadl::declaring(log, methods@);
            let n = log + entries(Kind::Declares, method_rows(vmt));
            assert forall|i: int| 0 <= i < n.len() implies m[i] == n[i] by {
                if i < log.len() {
                    assert(m[i] == log[i]);
                } else {
                    let k = i - log.len();
                    assert(m[log.len() + k] == n[i]);
                }
            }
            assert(m =~= n);
            lemma_inheriting(m, hierarchy@);
            assert(ctadl::classes(log, vmt) =~= all);
        },
        VirtualMethodTable::Lua { functions, hierarchy } => {
            lemma_tabling(log, functions@);
            let m = ctadl::tabling(log, functions@);
            let n = log + entries(Kind::Declares, method_rows(vmt));
            assert forall|i: int| 0 <= i < n.len() implies m[i] == n[i] by {
                if i < log.len() {
                    assert(m[i] == log[i]);
                } else {
                    let k = i - log.len();
                    assert(m[log.len() + k] == n[i]);
                }
            }
            assert(m =~= n);
            lemma_inheriting(m, hierarchy@);
            assert(ctadl::classes(log, vmt) =~= all);
        },
        _ => {
            assert(ctadl::classes(log, vmt) =~= all);
        },
    }
}

/// What qualifies the names of a function: its own name, or its import and position where
/// names are kept compact.
pub open spec fn qualifier(f: FunctionData, compact: bool, tag: nat, i: int) -> Name {
    if compact {
        decimal(tag) + ":"@ + decimal(i as nat)
    } else {
        f.name@
    }
}

/// Function `i` is lowered on the way to `log`.
pub open spec fn function_lowered(
    log: Seq<Entry>,
    fs: Seq<FunctionData>,
    compact: bool,
    tag: nat,
    i: int,
) -> bool {
    exists|q: Pen| #[trigger]
        initial(q.function(fs[i], qualifier(fs[i], compact, tag, i)).log, log)
}

/// The note at `x` of `log` was written for function `i`.
pub open spec fn function_wrote(
    log: Seq<Entry>,
    x: int,
    fs: Seq<FunctionData>,
    compact: bool,
    tag: nat,
    i: int,
) -> bool {
    exists|q: Pen|
        q.log.len() <= x < q.function(fs[i], qualifier(fs[i], compact, tag, i)).log.len()
            && #[trigger] initial(q.function(fs[i], qualifier(fs[i], compact, tag, i)).log, log)
}

proof fn lemma_initial(a: Seq<Entry>, b: Seq<Entry>, c: Seq<Entry>)
    requires
        initial(a, b),
        initial(b, c),
    ensures
        initial(a, c),
{
    assert forall|i: int| 0 <= i < a.len() implies #[trigger] c[i] == a[i] by {
        assert(b[i] == a[i]);
    }
}

proof fn lemma_function_grows(a: Pen, f: FunctionData, scope: Name)
    ensures
        initial(a.log, a.function(f, scope).log),
{
    lowering::law_functions_are_noted(a, f, scope, 0);
    let m = a.log + lowering::heading(f, scope);
    assert(initial(a.log, m)) by {
        assert forall|i: int| 0 <= i < a.log.len() implies #[trigger] m[i] == a.log[i] by {}
    }
    lemma_initial(a.log, m, a.function(f, scope).log);
}

proof fn lemma_code_step(a: Pen, compact: bool, tag: nat, fs: Seq<FunctionData>)
    requires
        fs.len() > 0,
    ensures
        initial(
            ctadl::code(a, compact, tag, fs.drop_last()).log,
            ctadl::code(a, compact, tag, fs).log,
        ),
{
    let m = ctadl::code(a, compact, tag, fs.drop_last());
    let f = fs.last();
    lemma_function_grows(m, f, ctadl::scope_of(f, compact, tag, (fs.len() - 1) as nat));
}

proof fn lemma_code_lowers(a: Pen, compact: bool, tag: nat, fs: Seq<FunctionData>, i: int)
    requires
        0 <= i < fs.len(),
        fs[i].blocks@.len() > 0,
    ensures
        function_lowered(ctadl::code(a, compact, tag, fs).log, fs, compact, tag, i),
    decreases fs.len(),
{
    let few = fs.drop_last();
    let (m, done) = (ctadl::code(a, compact, tag, few), ctadl::code(a, compact, tag, fs));
    lemma_code_step(a, compact, tag, fs);
    if i < few.len() {
        lemma_code_lowers(a, compact, tag, few, i);
        assert(few[i] == fs[i]);
        let q = choose|q: Pen| #[trigger]
            initial(q.function(few[i], qualifier(few[i], compact, tag, i)).log, m.log);
        lemma_initial(
            q.function(few[i], qualifier(few[i], compact, tag, i)).log,
            m.log,
            done.log,
        );
        assert(initial(q.function(fs[i], qualifier(fs[i], compact, tag, i)).log, done.log));
    } else {
        assert(fs[i] == fs.last());
        assert(initial(m.function(fs[i], qualifier(fs[i], compact, tag, i)).log, done.log));
    }
}

proof fn lemma_code_writes(
    a: Pen,
    compact: bool,
    tag: nat,
    fs: Seq<FunctionData>,
    x: int,
) -> (i: int)
    requires
        a.log.len() <= x < ctadl::code(a, compact, tag, fs).log.len(),
    ensures
        0 <= i < fs.len() && fs[i].blocks@.len() > 0,
        function_wrote(ctadl::code(a, compact, tag, fs).log, x, fs, compact, tag, i),
    decreases fs.len(),
{
    let few = fs.drop_last();
    let (m, done) = (ctadl::code(a, compact, tag, few), ctadl::code(a, compact, tag, fs));
    lemma_code_step(a, compact, tag, fs);
    if x < m.log.len() {
        let i = lemma_code_writes(a, compact, tag, few, x);
        assert(few[i] == fs[i]);
        let q = choose|q: Pen|
            q.log.len() <= x < q.function(few[i], qualifier(few[i], compact, tag, i)).log.len()
                && #[trigger] initial(
                q.function(few[i], qualifier(few[i], compact, tag, i)).log,
                m.log,
            );
        lemma_initial(
            q.function(few[i], qualifier(few[i], compact, tag, i)).log,
            m.log,
            done.log,
        );
        assert(initial(q.function(fs[i], qualifier(fs[i], compact, tag, i)).log, done.log));
        i
    } else {
        let i = fs.len() - 1;
        assert(fs[i] == fs.last());
        assert(initial(m.function(fs[i], qualifier(fs[i], compact, tag, i)).log, done.log));
        i
    }
}

/// An import notes its method table and hierarchy and then lowers every function with a
/// body; every further note was written for one of them. A function without a body adds
/// nothing.
pub proof fn law_imports_lower_every_function(
    log: Seq<Entry>,
    compact: bool,
    tag: nat,
    cir: CirProgram,
    vmt: VirtualMethodTable,
    i: int,
    x: int,
)
    ensures
        initial(
            log + entries(Kind::Declares, method_rows(vmt)) + entries(
                Kind::Extends,
                hierarchy_rows(vmt),
            ),
            ctadl::imported(log, compact, tag, cir, vmt),
        ),
        0 <= i < cir.functions@.len() && cir.functions@[i].blocks@.len() > 0 ==> function_lowered(
            ctadl::imported(log, compact, tag, cir, vmt),
            cir.functions@,
            compact,
            tag,
            i,
        ),
        log.len() + method_rows(vmt).len() + hierarchy_rows(vmt).len() <= x < ctadl::imported(
            log,
            compact,
            tag,
            cir,
            vmt,
        ).len() ==> exists|j: int|
            0 <= j < cir.functions@.len() && cir.functions@[j].blocks@.len() > 0
                && #[trigger] function_wrote(
                ctadl::imported(log, compact, tag, cir, vmt),
                x,
                cir.functions@,
                compact,
                tag,
                j,
            ),
{
    law_method_tables_are_noted(log, vmt);
    let a = ctadl::idle(ctadl::classes(log, vmt));
    let fs = cir.functions@;
    lemma_code_starts(a, compact, tag, fs);
    if 0 <= i < fs.len() && fs[i].blocks@.len() > 0 {
        lemma_code_lowers(a, compact, tag, fs, i);
    }
    if a.log.len() <= x < ctadl::code(a, compact, tag, fs).log.len() {
        let j = lemma_code_writes(a, compact, tag, fs, x);
        assert(function_wrote(ctadl::code(a, compact, tag, fs).log, x, fs, compact, tag, j));
    }
}

proof fn lemma_code_starts(a: Pen, compact: bool, tag: nat, fs: Seq<FunctionData>)
    ensures
        initial(a.log, ctadl::code(a, compact, tag, fs).log),
    decreases fs.len(),
{
    if fs.len() > 0 {
        lemma_code_starts(a, compact, tag, fs.drop_last());
        lemma_code_step(a, compact, tag, fs);
        lemma_initial(
            a.log,
            ctadl::code(a, compact, tag, fs.drop_last()).log,
            ctadl::code(a, compact, tag, fs).log,
        );
    }
}

/// The return facts of some functions: those of each with a body, in order.
pub open spec fn all_returns(
    fs: Seq<FunctionData>,
    compact: bool,
    tag: nat,
    n: int,
) -> Seq<Seq<Datum>>
    decreases n,
{
    if n <= 0 {
        Seq::empty()
    } else {
        let f = fs[n - 1];
        all_returns(fs, compact, tag, n - 1) + lowering::return_rows(
            f,
            qualifier(f, compact, tag, n - 1),
            f.blocks@.len() as int,
        )
    }
}

proof fn lemma_code_returns(a: Pen, compact: bool, tag: nat, fs: Seq<FunctionData>, n: int)
    requires
        0 <= n <= fs.len(),
    ensures
        noted(ctadl::code(a, compact, tag, fs.take(n)).log, Kind::Ret) == noted(a.log, Kind::Ret)
            + all_returns(fs, compact, tag, n),
    decreases n,
{
    let (w, all) = (noted(a.log, Kind::Ret), all_returns(fs, compact, tag, n));
    if n == 0 {
        assert(fs.take(n).len() == 0);
        assert(w + all =~= w);
    } else {
        let few = fs.take(n - 1);
        assert(fs.take(n).drop_last() =~= few);
        lemma_code_returns(a, compact, tag, fs, n - 1);
        let m = ctadl::code(a, compact, tag, few);
        let f = fs[n - 1];
        assert(fs.take(n).last() == f);
        let scope = qualifier(f, compact, tag, n - 1);
        let more = lowering::return_rows(f, scope, f.blocks@.len() as int);
        if f.blocks@.len() == 0 {
            assert(more.len() == 0);
            assert(w + all =~= w + all_returns(fs, compact, tag, n - 1));
        } else {
            lowering::law_functions_are_noted(m, f, scope, 0);
            assert(w + all =~= (w + all_returns(fs, compact, tag, n - 1)) + more);
        }
    }
}

/// The return facts of a program are one per block that ends in the return of something,
/// of every function with a body: the function with the variable that the first returned
/// value denotes.
pub proof fn law_return_facts(
    cir: CirProgram,
    vmt: &VirtualMethodTable,
    opts: Options,
    prog: Program,
    p: Name,
    v: Name,
)
    requires
        call_ensures(import_edb, (cir, vmt, opts), prog),
    ensures
        tuples(prog.ret@).contains((p, v)) <==> all_returns(
            cir.functions@,
            opts.compact_names,
            0,
            cir.functions@.len() as int,
        ).contains(seq![Datum::Text(p), Datum::Text(v)]),
{
    let log = notes(cir, *vmt, opts);
    let row = seq![Datum::Text(p), Datum::Text(v)];
    law_facts_are_the_notes(cir, vmt, opts, prog, p, v, p, p, 0);
    ledger::lemma_noted(log, Kind::Ret, row);
    let fs = cir.functions@;
    let start = ctadl::classes(Seq::empty(), *vmt);
    law_method_tables_are_noted(Seq::empty(), *vmt);
    lemma_no_returns(start);
    lemma_code_returns(ctadl::idle(start), opts.compact_names, 0, fs, fs.len() as int);
    assert(fs.take(fs.len() as int) =~= fs);
    let all = all_returns(fs, opts.compact_names, 0, fs.len() as int);
    assert(Seq::<Seq<Datum>>::empty() + all =~= all);
}

proof fn lemma_no_returns(log: Seq<Entry>)
    requires
        forall|i: int| 0 <= i < log.len() ==> (#[trigger] log[i]).kind != Kind::Ret,
    ensures
        noted(log, Kind::Ret) == Seq::<Seq<Datum>>::empty(),
    decreases log.len(),
{
    if log.len() > 0 {
        assert forall|i: int| 0 <= i < log.drop_last().len()
            implies (#[trigger] log.drop_last()[i]).kind
            != Kind::Ret by {
            assert(log[i].kind != Kind::Ret);
        }
        lemma_no_returns(log.drop_last());
        assert(log[log.len() - 1].kind != Kind::Ret);
    }
}

} // verus!
