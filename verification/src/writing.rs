//! What a statement writes, note by note.
//!
//! Each statement places its temporaries and then itself, and tells its facts in a fixed
//! order. Here both lists are given outright, as a function of the statement, of its
//! label and of the number of temporaries that the label already has.
use vstd::prelude::*;

use crate::cir::{Address, CallObject, CallStyle, Exp, FunctionData, Statement, VariableRef};
use crate::ir::Name;
use crate::ledger::{Entry, Kind};
use crate::lower::{constant, object_type, var_name, Pen, Rhs};
use crate::rows::{self, Datum};
use crate::text::{decimal, signed_decimal};

verus! {

// ---------------------------------------------------------------------------
// Reading the notes
// ---------------------------------------------------------------------------

/// The labels that the notes place, in order.
pub open spec fn places(log: Seq<Entry>) -> Seq<Datum>
    decreases log.len(),
{
    if log.len() == 0 {
        Seq::empty()
    } else if log.last().kind == Kind::InProc {
        places(log.drop_last()).push(log.last().row[0])
    } else {
        places(log.drop_last())
    }
}

/// The notes that place no label, in order.
pub open spec fn told(log: Seq<Entry>) -> Seq<Entry>
    decreases log.len(),
{
    if log.len() == 0 {
        Seq::empty()
    } else if log.last().kind == Kind::InProc {
        told(log.drop_last())
    } else {
        told(log.drop_last()).push(log.last())
    }
}

/// On the way from `a` to `b` the pen places these labels and tells these facts, and
/// otherwise stays with its statement.
spec fn adds(a: Pen, b: Pen, labels: Seq<Datum>, facts: Seq<Entry>) -> bool {
    &&& places(b.log) == places(a.log) + labels
    &&& told(b.log) == told(a.log) + facts
    &&& b.scope == a.scope
    &&& b.base == a.base
    &&& b.proc == a.proc
}

proof fn lemma_note(a: Pen, kind: Kind, row: Seq<Datum>)
    requires
        kind != Kind::InProc,
    ensures
        adds(a, a.note(kind, row), Seq::empty(), seq![Entry { kind, row }]),
{
    let b = a.note(kind, row);
    assert(b.log.drop_last() =~= a.log);
    assert(places(b.log) =~= places(a.log) + Seq::empty());
    assert(told(b.log) =~= told(a.log) + seq![Entry { kind, row }]);
}

proof fn lemma_record(a: Pen, s: Name)
    ensures
        adds(a, a.record(s), seq![Datum::Text(s)], Seq::empty()),
{
    let b = a.record(s);
    assert(b.log.drop_last() =~= a.log);
    assert(places(b.log) =~= places(a.log) + seq![Datum::Text(s)]);
    assert(told(b.log) =~= told(a.log) + Seq::empty());
}

proof fn lemma_then(
    a: Pen,
    b: Pen,
    c: Pen,
    p: Seq<Datum>,
    q: Seq<Datum>,
    x: Seq<Entry>,
    y: Seq<Entry>,
)
    requires
        adds(a, b, p, x),
        adds(b, c, q, y),
    ensures
        adds(a, c, p + q, x + y),
{
    assert(places(c.log) =~= places(a.log) + (p + q));
    assert(told(c.log) =~= told(a.log) + (x + y));
}

// ---------------------------------------------------------------------------
// Temporaries and values
// ---------------------------------------------------------------------------

/// The label of temporary `k` of the statement `s`.
pub open spec fn spare(s: Name, k: nat) -> Name {
    s + "~"@ + decimal(k)
}

/// The variable that temporary `k` of the statement `s` holds.
pub open spec fn held_in(s: Name, k: nat) -> Name {
    "$t"@ + decimal(k) + "@"@ + s
}

/// The labels of `n` temporaries, from `k` on.
pub open spec fn spares(s: Name, k: nat, n: nat) -> Seq<Datum> {
    Seq::new(n, |j: int| Datum::Text(spare(s, (k + j) as nat)))
}

/// The loads that follow offsets from a variable: one for each, into a temporary of its
/// own, out of the one before.
pub open spec fn hops(s: Name, k: nat, from: Name, offsets: Seq<i64>) -> Seq<Entry> {
    Seq::new(
        offsets.len(),
        |j: int|
            Entry {
                kind: Kind::LoadIndexConst,
                row: seq![
                    Datum::Text(spare(s, (k + j) as nat)),
                    Datum::Text(held_in(s, (k + j) as nat)),
                    Datum::Text(
                        if j == 0 {
                            from
                        } else {
                            held_in(s, (k + j - 1) as nat)
                        },
                    ),
                    Datum::Text(signed_decimal(offsets[j] as int)),
                ],
            },
    )
}

/// The variable that following offsets ends in.
pub open spec fn hopped(s: Name, k: nat, from: Name, offsets: Seq<i64>) -> Name {
    if offsets.len() == 0 {
        from
    } else {
        held_in(s, (k + offsets.len() - 1) as nat)
    }
}

/// Reading an expression takes one temporary for each offset.
pub open spec fn read_takes(e: Exp) -> nat {
    match e {
        Exp::AccessPath(a) => a.offsets@.len(),
        _ => 0,
    }
}

/// What is told in reading an expression: the loads along an address, and that a function
/// pointer was taken.
pub open spec fn read_tells(f: FunctionData, scope: Name, s: Name, k: nat, e: Exp) -> Seq<Entry> {
    match e {
        Exp::AccessPath(a) => hops(s, k, var_name(f, scope, a.variable_ref), a.offsets@),
        Exp::ObjectRef(CallObject::FunctionPtr(name)) => seq![
            Entry { kind: Kind::Taken, row: seq![Datum::Text(name@)] },
        ],
        _ => Seq::empty(),
    }
}

/// An expression as a variable takes its offsets, or one temporary to hold what is no
/// variable.
pub open spec fn value_takes(e: Exp) -> nat {
    match e {
        Exp::Variable(_) => 0,
        Exp::AccessPath(a) => a.offsets@.len(),
        _ => 1,
    }
}

/// The variable that stands for an expression.
pub open spec fn value_var(f: FunctionData, scope: Name, s: Name, k: nat, e: Exp) -> Name {
    match e {
        Exp::Variable(v) => var_name(f, scope, v),
        Exp::AccessPath(a) => hopped(s, k, var_name(f, scope, a.variable_ref), a.offsets@),
        _ => held_in(s, k),
    }
}

/// What is told in making an expression a variable.
pub open spec fn value_tells(f: FunctionData, scope: Name, s: Name, k: nat, e: Exp) -> Seq<Entry> {
    let at = Datum::Text(spare(s, k));
    let to = Datum::Text(held_in(s, k));
    match e {
        Exp::Variable(_) => Seq::empty(),
        Exp::AccessPath(a) => hops(s, k, var_name(f, scope, a.variable_ref), a.offsets@),
        Exp::ObjectRef(o) => {
            let site = Datum::Text("l:"@ + spare(s, k));
            read_tells(f, scope, s, k, e) + seq![
                Entry { kind: Kind::Alloc, row: seq![at, to, site] },
                Entry { kind: Kind::AllocType, row: seq![site, Datum::Text(object_type(o))] },
            ]
        },
        _ => seq![
            Entry { kind: Kind::ConstAssign, row: seq![at, to, Datum::Text(constant(e))] },
        ],
    }
}

proof fn lemma_walk(a: Pen, from: Name, offsets: Seq<i64>)
    ensures
        ({
            let (b, v) = a.walk(from, offsets);
            &&& adds(
                a,
                b,
                spares(a.base, a.sub, offsets.len()),
                hops(a.base, a.sub, from, offsets),
            )
            &&& b.sub == a.sub + offsets.len()
            &&& v == hopped(a.base, a.sub, from, offsets)
        }),
    decreases offsets.len(),
{
    if offsets.len() == 0 {
        assert(spares(a.base, a.sub, 0) =~= Seq::empty());
        assert(hops(a.base, a.sub, from, offsets) =~= Seq::empty());
        assert(places(a.log) + Seq::empty() =~= places(a.log));
        assert(told(a.log) + Seq::empty() =~= told(a.log));
    } else {
        let less = offsets.drop_last();
        lemma_walk(a, from, less);
        let (b, cur) = a.walk(from, less);
        let row = rows::four_row(
            b.temp_label(),
            b.temp_var(),
            cur,
            signed_decimal(offsets.last() as int),
        );
        let c = b.temp();
        lemma_record(b, b.temp_label());
        assert(adds(b, c, seq![Datum::Text(b.temp_label())], Seq::empty()));
        lemma_note(c, Kind::LoadIndexConst, row);
        let d = c.note(Kind::LoadIndexConst, row);
        let n = offsets.len();
        assert(places(d.log) =~= places(a.log) + spares(a.base, a.sub, n)) by {
            assert(spares(a.base, a.sub, n) =~= spares(a.base, a.sub, less.len()).push(
                Datum::Text(b.temp_label()),
            ));
        }
        assert(hops(a.base, a.sub, from, offsets) =~= hops(a.base, a.sub, from, less).push(
            Entry { kind: Kind::LoadIndexConst, row },
        ));
        assert(told(d.log) =~= told(a.log) + hops(a.base, a.sub, from, offsets));
    }
}

proof fn lemma_read(a: Pen, f: FunctionData, e: Exp)
    ensures
        ({
            let (b, r) = a.rhs(f, e);
            &&& adds(
                a,
                b,
                spares(a.base, a.sub, read_takes(e)),
                read_tells(f, a.scope, a.base, a.sub, e),
            )
            &&& b.sub == a.sub + read_takes(e)
            &&& r == (match e {
                Exp::Variable(_) => Rhs::Var(value_var(f, a.scope, a.base, a.sub, e)),
                Exp::AccessPath(_) => Rhs::Var(value_var(f, a.scope, a.base, a.sub, e)),
                Exp::ObjectRef(o) => Rhs::Object(object_type(o)),
                _ => Rhs::Const(constant(e)),
            })
        }),
{
    assert(spares(a.base, a.sub, 0) =~= Seq::empty());
    assert(places(a.log) + Seq::empty() =~= places(a.log));
    assert(told(a.log) + Seq::empty() =~= told(a.log));
    match e {
        Exp::AccessPath(x) => {
            lemma_walk(a, var_name(f, a.scope, x.variable_ref), x.offsets@);
        },
        Exp::ObjectRef(CallObject::FunctionPtr(name)) => {
            lemma_note(a, Kind::Taken, rows::one_row(name@));
        },
        _ => {},
    }
}

/// Making an expression a variable places its temporaries and tells what they hold: the
/// loads along an address, a constant, or an allocation with its type; a variable needs
/// nothing.
pub proof fn law_what_a_value_writes(a: Pen, f: FunctionData, e: Exp)
    ensures
        ({
            let (b, v) = a.exp_var(f, e);
            &&& v == value_var(f, a.scope, a.base, a.sub, e)
            &&& b.sub == a.sub + value_takes(e)
            &&& places(b.log) == places(a.log) + spares(a.base, a.sub, value_takes(e))
            &&& told(b.log) == told(a.log) + value_tells(f, a.scope, a.base, a.sub, e)
            &&& b.proc == a.proc && b.scope == a.scope && b.base == a.base
        }),
{
    lemma_read(a, f, e);
    let (b, r) = a.rhs(f, e);
    assert(spares(a.base, a.sub, 0) =~= Seq::empty());
    assert(spares(a.base, a.sub, 1) =~= seq![Datum::Text(spare(a.base, a.sub))]);
    let (s, t) = (b.temp_label(), b.temp_var());
    match r {
        Rhs::Var(_) => {},
        Rhs::Const(c) => {
            lemma_record(b, s);
            let d = b.temp();
            lemma_note(d, Kind::ConstAssign, rows::three_row(s, t, c));
            let g = d.note(Kind::ConstAssign, rows::three_row(s, t, c));
            assert(places(g.log) =~= places(a.log) + spares(a.base, a.sub, 1));
            assert(told(g.log) =~= told(a.log) + value_tells(f, a.scope, a.base, a.sub, e));
        },
        Rhs::Object(ty) => {
            let site = "l:"@ + s;
            lemma_record(b, s);
            let d = b.temp();
            lemma_note(d, Kind::Alloc, rows::three_row(s, t, site));
            let g = d.note(Kind::Alloc, rows::three_row(s, t, site));
            lemma_note(g, Kind::AllocType, rows::two_row(site, ty));
            let h = g.note(Kind::AllocType, rows::two_row(site, ty));
            assert(places(h.log) =~= places(a.log) + spares(a.base, a.sub, 1));
            assert(told(h.log) =~= told(a.log) + value_tells(f, a.scope, a.base, a.sub, e));
        },
    }
}

// ---------------------------------------------------------------------------
// Several operands
// ---------------------------------------------------------------------------

/// How many temporaries reading the first `n` operands takes.
pub open spec fn reads_take(es: Seq<Exp>, n: nat) -> nat
    decreases n,
{
    if n == 0 {
        0
    } else {
        reads_take(es, (n - 1) as nat) + read_takes(es[n - 1])
    }
}

/// What is told in reading the first `n` operands.
pub open spec fn reads_tell(
    f: FunctionData,
    scope: Name,
    s: Name,
    k: nat,
    es: Seq<Exp>,
    n: nat,
) -> Seq<Entry>
    decreases n,
{
    if n == 0 {
        Seq::empty()
    } else {
        let m = (n - 1) as nat;
        reads_tell(f, scope, s, k, es, m) + read_tells(
            f,
            scope,
            s,
            k + reads_take(es, m),
            es[n - 1],
        )
    }
}

/// How many temporaries the first `n` arguments take.
pub open spec fn values_take(es: Seq<Exp>, n: nat) -> nat
    decreases n,
{
    if n == 0 {
        0
    } else {
        values_take(es, (n - 1) as nat) + value_takes(es[n - 1])
    }
}

/// What is told in making the first `n` arguments variables.
pub open spec fn values_tell(
    f: FunctionData,
    scope: Name,
    s: Name,
    k: nat,
    es: Seq<Exp>,
    n: nat,
) -> Seq<Entry>
    decreases n,
{
    if n == 0 {
        Seq::empty()
    } else {
        let m = (n - 1) as nat;
        values_tell(f, scope, s, k, es, m) + value_tells(
            f,
            scope,
            s,
            k + values_take(es, m),
            es[n - 1],
        )
    }
}

/// What operand `i` of an assignment gives its target: a variable is moved, a constant is
/// assigned, and an object is allocated at a site of its own.
pub open spec fn given(
    f: FunctionData,
    scope: Name,
    s: Name,
    k: nat,
    to: Name,
    e: Exp,
    i: nat,
) -> Seq<Entry> {
    let (at, to) = (Datum::Text(s), Datum::Text(to));
    match e {
        Exp::Variable(_) | Exp::AccessPath(_) => seq![
            Entry {
                kind: Kind::Mov,
                row: seq![at, to, Datum::Text(value_var(f, scope, s, k, e))],
            },
        ],
        Exp::ObjectRef(o) => {
            let site = Datum::Text("l:"@ + s + ":"@ + decimal(i));
            seq![
                Entry { kind: Kind::Alloc, row: seq![at, to, site] },
                Entry { kind: Kind::AllocType, row: seq![site, Datum::Text(object_type(o))] },
            ]
        },
        _ => seq![
            Entry { kind: Kind::ConstAssign, row: seq![at, to, Datum::Text(constant(e))] },
        ],
    }
}

/// What the first `n` operands of an assignment give its target.
pub open spec fn all_given(
    f: FunctionData,
    scope: Name,
    s: Name,
    k: nat,
    to: Name,
    es: Seq<Exp>,
    n: nat,
) -> Seq<Entry>
    decreases n,
{
    if n == 0 {
        Seq::empty()
    } else {
        let m = (n - 1) as nat;
        all_given(f, scope, s, k, to, es, m) + given(
            f,
            scope,
            s,
            k + reads_take(es, m),
            to,
            es[n - 1],
            m,
        )
    }
}

proof fn lemma_spares(s: Name, k: nat, n: nat, m: nat)
    ensures
        spares(s, k, n) + spares(s, k + n, m) == spares(s, k, n + m),
{
    assert(spares(s, k, n) + spares(s, k + n, m) =~= spares(s, k, n + m));
}

proof fn lemma_stays(a: Pen)
    ensures
        adds(a, a, Seq::empty(), Seq::empty()),
        adds(a, a, spares(a.base, a.sub, 0), Seq::empty()),
{
    assert(spares(a.base, a.sub, 0) =~= Seq::empty());
    assert(places(a.log) + Seq::empty() =~= places(a.log));
    assert(told(a.log) + Seq::empty() =~= told(a.log));
}

/// What reading an expression yields.
spec fn read_as(f: FunctionData, scope: Name, s: Name, k: nat, e: Exp) -> Rhs {
    match e {
        Exp::Variable(_) | Exp::AccessPath(_) => Rhs::Var(value_var(f, scope, s, k, e)),
        Exp::ObjectRef(o) => Rhs::Object(object_type(o)),
        _ => Rhs::Const(constant(e)),
    }
}

proof fn lemma_reads(a: Pen, f: FunctionData, es: Seq<Exp>, n: nat)
    requires
        n <= es.len(),
    ensures
        ({
            let (b, rs) = a.all_rhs(f, es.take(n as int));
            &&& adds(
                a,
                b,
                spares(a.base, a.sub, reads_take(es, n)),
                reads_tell(f, a.scope, a.base, a.sub, es, n),
            )
            &&& b.sub == a.sub + reads_take(es, n)
            &&& rs.len() == n
            &&& forall|i: int|
                0 <= i < n ==> #[trigger] rs[i] == read_as(
                    f,
                    a.scope,
                    a.base,
                    a.sub + reads_take(es, i as nat),
                    es[i],
                )
        }),
    decreases n,
{
    if n == 0 {
        lemma_stays(a);
    } else {
        let m = (n - 1) as nat;
        lemma_reads(a, f, es, m);
        assert(es.take(n as int).drop_last() =~= es.take(m as int));
        assert(es.take(n as int).last() == es[m as int]);
        let (b, rs) = a.all_rhs(f, es.take(m as int));
        lemma_read(b, f, es[m as int]);
        let c = b.rhs(f, es[m as int]).0;
        lemma_then(
            a,
            b,
            c,
            spares(a.base, a.sub, reads_take(es, m)),
            spares(a.base, b.sub, read_takes(es[m as int])),
            reads_tell(f, a.scope, a.base, a.sub, es, m),
            read_tells(f, a.scope, a.base, b.sub, es[m as int]),
        );
        lemma_spares(a.base, a.sub, reads_take(es, m), read_takes(es[m as int]));
    }
}

proof fn lemma_values(a: Pen, f: FunctionData, es: Seq<Exp>, n: nat)
    requires
        n <= es.len(),
    ensures
        ({
            let (b, vs) = a.all_vars(f, es.take(n as int));
            &&& adds(
                a,
                b,
                spares(a.base, a.sub, values_take(es, n)),
                values_tell(f, a.scope, a.base, a.sub, es, n),
            )
            &&& b.sub == a.sub + values_take(es, n)
            &&& vs.len() == n
            &&& forall|i: int|
                0 <= i < n ==> #[trigger] vs[i] == value_var(
                    f,
                    a.scope,
                    a.base,
                    a.sub + values_take(es, i as nat),
                    es[i],
                )
        }),
    decreases n,
{
    if n == 0 {
        lemma_stays(a);
    } else {
        let m = (n - 1) as nat;
        lemma_values(a, f, es, m);
        assert(es.take(n as int).drop_last() =~= es.take(m as int));
        assert(es.take(n as int).last() == es[m as int]);
        let (b, vs) = a.all_vars(f, es.take(m as int));
        law_what_a_value_writes(b, f, es[m as int]);
        let c = b.exp_var(f, es[m as int]).0;
        lemma_then(
            a,
            b,
            c,
            spares(a.base, a.sub, values_take(es, m)),
            spares(a.base, b.sub, value_takes(es[m as int])),
            values_tell(f, a.scope, a.base, a.sub, es, m),
            value_tells(f, a.scope, a.base, b.sub, es[m as int]),
        );
        lemma_spares(a.base, a.sub, values_take(es, m), value_takes(es[m as int]));
    }
}

proof fn lemma_given(
    a: Pen,
    f: FunctionData,
    k: nat,
    to: Name,
    es: Seq<Exp>,
    rs: Seq<Rhs>,
    n: nat,
)
    requires
        n <= es.len(),
        n <= rs.len(),
        forall|i: int|
            0 <= i < n ==> #[trigger] rs[i] == read_as(
                f,
                a.scope,
                a.base,
                k + reads_take(es, i as nat),
                es[i],
            ),
    ensures
        adds(
            a,
            a.assign_all(to, rs.take(n as int)),
            Seq::empty(),
            all_given(f, a.scope, a.base, k, to, es, n),
        ),
    decreases n,
{
    if n == 0 {
        lemma_stays(a);
    } else {
        let m = (n - 1) as nat;
        lemma_given(a, f, k, to, es, rs, m);
        assert(rs.take(n as int).drop_last() =~= rs.take(m as int));
        let r = rs[m as int];
        assert(rs.take(n as int).last() == r);
        let b = a.assign_all(to, rs.take(m as int));
        let c = b.assign(to, r, m);
        let e = es[m as int];
        let more = given(f, a.scope, a.base, k + reads_take(es, m), to, e, m);
        assert(adds(b, c, Seq::empty(), more)) by {
            match r {
                Rhs::Var(v) => {
                    lemma_note(b, Kind::Mov, rows::three_row(a.base, to, v));
                },
                Rhs::Const(x) => {
                    lemma_note(b, Kind::ConstAssign, rows::three_row(a.base, to, x));
                },
                Rhs::Object(ty) => {
                    let site = "l:"@ + a.base + ":"@ + decimal(m);
                    lemma_note(b, Kind::Alloc, rows::three_row(a.base, to, site));
                    let d = b.note(Kind::Alloc, rows::three_row(a.base, to, site));
                    lemma_note(d, Kind::AllocType, rows::two_row(site, ty));
                    assert(places(c.log) =~= places(b.log) + Seq::empty());
                    assert(told(c.log) =~= told(b.log) + more);
                },
            }
        }
        lemma_then(
            a,
            b,
            c,
            Seq::empty(),
            Seq::empty(),
            all_given(f, a.scope, a.base, k, to, es, m),
            more,
        );
        assert(Seq::<Datum>::empty() + Seq::<Datum>::empty() =~= Seq::<Datum>::empty());
    }
}

// ---------------------------------------------------------------------------
// Statements
// ---------------------------------------------------------------------------

/// One fact of a statement, all of whose columns are names.
pub open spec fn fact(kind: Kind, columns: Seq<Name>) -> Entry {
    Entry { kind, row: Seq::new(columns.len(), |i: int| Datum::Text(columns[i])) }
}

/// The address has no offset and is the heap of globals.
pub open spec fn on_globals(a: Address) -> bool {
    a.variable_ref.variable is GlobalHeap && a.offsets@.len() == 0
}

/// A load is one read: of a global by its name, or of a field of what the address denotes.
pub open spec fn load_tells(
    f: FunctionData,
    scope: Name,
    s: Name,
    k: nat,
    dest: VariableRef,
    source: Address,
    field: Name,
) -> Seq<Entry> {
    let to = var_name(f, scope, dest);
    let from = var_name(f, scope, source.variable_ref);
    if on_globals(source) {
        seq![fact(Kind::LoadStatic, seq![s, to, "$globals"@, field])]
    } else {
        hops(s, k, from, source.offsets@).push(
            fact(Kind::LoadField, seq![s, to, hopped(s, k, from, source.offsets@), field]),
        )
    }
}

/// How many temporaries the address of a store takes: one for each offset that is
/// followed, and without a field the last offset is not.
pub open spec fn store_takes(dest: Address, field: Name) -> nat {
    if field.len() == 0 && dest.offsets@.len() > 0 {
        (dest.offsets@.len() - 1) as nat
    } else {
        dest.offsets@.len()
    }
}

/// A store is one write of the value: to a global by its name, to a field of what the
/// address denotes, or without a field to the last offset; without either to nothing.
pub open spec fn store_tells(
    f: FunctionData,
    scope: Name,
    s: Name,
    k: nat,
    dest: Address,
    field: Name,
    value: Exp,
) -> Seq<Entry> {
    let v = value_var(f, scope, s, k, value);
    let next = k + value_takes(value);
    let from = var_name(f, scope, dest.variable_ref);
    let offsets = dest.offsets@;
    value_tells(f, scope, s, k, value) + if field.len() == 0 && offsets.len() == 0 {
        Seq::empty()
    } else if field.len() == 0 {
        let way = offsets.take(offsets.len() - 1);
        hops(s, next, from, way).push(
            fact(
                Kind::StoreIndexConst,
                seq![
                    s,
                    hopped(s, next, from, way),
                    signed_decimal(offsets[offsets.len() - 1] as int),
                    v,
                ],
            ),
        )
    } else if on_globals(dest) {
        seq![fact(Kind::StoreStatic, seq![s, "$globals"@, field, v])]
    } else {
        hops(s, next, from, offsets).push(
            fact(Kind::StoreField, seq![s, hopped(s, next, from, offsets), field, v]),
        )
    }
}

proof fn lemma_site(a: Pen, kind: Kind, row: Seq<Datum>)
    requires
        kind != Kind::InProc,
    ensures
        adds(a, a.site().note(kind, row), seq![Datum::Text(a.base)], seq![Entry { kind, row }]),
{
    lemma_record(a, a.base);
    let b = a.site();
    lemma_note(b, kind, row);
    lemma_then(
        a,
        b,
        b.note(kind, row),
        seq![Datum::Text(a.base)],
        Seq::empty(),
        Seq::empty(),
        seq![Entry { kind, row }],
    );
    assert(seq![Datum::Text(a.base)] + Seq::<Datum>::empty() =~= seq![Datum::Text(a.base)]);
    assert(Seq::<Entry>::empty() + seq![Entry { kind, row }] =~= seq![Entry { kind, row }]);
}

proof fn lemma_fact(kind: Kind, columns: Seq<Name>, row: Seq<Datum>)
    requires
        row.len() == columns.len(),
        forall|i: int| 0 <= i < row.len() ==> #[trigger] row[i] == Datum::Text(columns[i]),
    ensures
        fact(kind, columns) == (Entry { kind, row }),
{
    assert(fact(kind, columns).row =~= row);
}

proof fn lemma_push(p: Seq<Datum>, x: Seq<Entry>, d: Datum, e: Entry)
    ensures
        p + seq![d] == p.push(d),
        x + seq![e] == x.push(e),
{
    assert(p + seq![d] =~= p.push(d));
    assert(x + seq![e] =~= x.push(e));
}

/// A load places the temporaries of its address and itself, and tells its read.
pub proof fn law_what_a_load_writes(
    a: Pen,
    f: FunctionData,
    dest: VariableRef,
    source: Address,
    field: String,
)
    ensures
        ({
            let b = a.statement(f, Statement::Load { dest, source, field });
            &&& places(b.log) == places(a.log) + spares(
                a.base,
                a.sub,
                source.offsets@.len(),
            ).push(Datum::Text(a.base))
            &&& told(b.log) == told(a.log) + load_tells(
                f,
                a.scope,
                a.base,
                a.sub,
                dest,
                source,
                field@,
            )
        }),
{
    let to = var_name(f, a.scope, dest);
    let from = var_name(f, a.scope, source.variable_ref);
    let n = source.offsets@.len();
    if on_globals(source) {
        let row = rows::four_row(a.base, to, "$globals"@, field@);
        lemma_site(a, Kind::LoadStatic, row);
        lemma_fact(Kind::LoadStatic, seq![a.base, to, "$globals"@, field@], row);
        assert(spares(a.base, a.sub, n).push(Datum::Text(a.base)) =~= seq![
            Datum::Text(a.base),
        ]);
    } else {
        lemma_walk(a, from, source.offsets@);
        let (b, base) = a.address(f, source);
        let row = rows::four_row(a.base, to, base, field@);
        lemma_site(b, Kind::LoadField, row);
        lemma_fact(Kind::LoadField, seq![a.base, to, base, field@], row);
        let p = spares(a.base, a.sub, n);
        let x = hops(a.base, a.sub, from, source.offsets@);
        let e = Entry { kind: Kind::LoadField, row };
        lemma_then(
            a,
            b,
            b.site().note(Kind::LoadField, row),
            p,
            seq![Datum::Text(a.base)],
            x,
            seq![e],
        );
        lemma_push(p, x, Datum::Text(a.base), e);
    }
}

/// A store places the temporaries of its value and of its address and itself, and tells
/// its write; with nothing to store through it places and tells its value alone.
pub proof fn law_what_a_store_writes(
    a: Pen,
    f: FunctionData,
    address: Address,
    field: String,
    value: Exp,
)
    ensures
        ({
            let b = a.statement(f, Statement::Store { address, field, value });
            let n = value_takes(value);
            &&& places(b.log) == places(a.log) + if field@.len() == 0
                && address.offsets@.len() == 0 {
                spares(a.base, a.sub, n)
            } else {
                spares(a.base, a.sub, n + store_takes(address, field@)).push(
                    Datum::Text(a.base),
                )
            }
            &&& told(b.log) == told(a.log) + store_tells(
                f,
                a.scope,
                a.base,
                a.sub,
                address,
                field@,
                value,
            )
        }),
{
    law_what_a_value_writes(a, f, value);
    let (b, v) = a.exp_var(f, value);
    let s = a.base;
    let n = value_takes(value);
    let from = var_name(f, a.scope, address.variable_ref);
    let offsets = address.offsets@;
    let p = spares(s, a.sub, n);
    let x = value_tells(f, a.scope, s, a.sub, value);
    let here = Datum::Text(s);
    if field@.len() == 0 && offsets.len() == 0 {
        assert(x + Seq::empty() =~= x);
    } else if field@.len() > 0 && on_globals(address) {
        let row = rows::four_row(s, "$globals"@, field@, v);
        lemma_site(b, Kind::StoreStatic, row);
        lemma_fact(Kind::StoreStatic, seq![s, "$globals"@, field@, v], row);
        let e = Entry { kind: Kind::StoreStatic, row };
        lemma_then(a, b, b.site().note(Kind::StoreStatic, row), p, seq![here], x, seq![e]);
        lemma_push(p, x, here, e);
    } else {
        let last = signed_decimal(offsets[offsets.len() - 1] as int);
        let way = if field@.len() == 0 {
            offsets.drop_last()
        } else {
            offsets
        };
        assert(offsets.drop_last() =~= offsets.take(offsets.len() - 1));
        lemma_walk(b, from, way);
        let (c, base) = b.walk(from, way);
        let (kind, row) = if field@.len() == 0 {
            (Kind::StoreIndexConst, rows::four_row(s, base, last, v))
        } else {
            (Kind::StoreField, rows::four_row(s, base, field@, v))
        };
        lemma_site(c, kind, row);
        if field@.len() == 0 {
            lemma_fact(kind, seq![s, base, last, v], row);
        } else {
            lemma_fact(kind, seq![s, base, field@, v], row);
        }
        let e = Entry { kind, row };
        let q = spares(s, b.sub, way.len());
        let y = hops(s, b.sub, from, way);
        let d = c.site().note(kind, row);
        lemma_then(b, c, d, q, seq![here], y, seq![e]);
        lemma_push(q, y, here, e);
        lemma_then(a, b, d, p, q.push(here), x, y.push(e));
        lemma_spares(s, a.sub, n, way.len());
        assert(p + q.push(here) =~= (p + q).push(here));
    }
}

/// An assignment places the temporaries of its operands and itself, and tells what
/// reading them tells and then what each gives the target.
pub proof fn law_what_an_assignment_writes(
    a: Pen,
    f: FunctionData,
    dest: VariableRef,
    sources: Vec<Exp>,
)
    ensures
        ({
            let b = a.statement(f, Statement::Assign { dest, sources });
            let n = sources@.len();
            let to = var_name(f, a.scope, dest);
            &&& places(b.log) == places(a.log) + spares(
                a.base,
                a.sub,
                reads_take(sources@, n),
            ).push(Datum::Text(a.base))
            &&& told(b.log) == told(a.log) + (reads_tell(
                f,
                a.scope,
                a.base,
                a.sub,
                sources@,
                n,
            ) + all_given(f, a.scope, a.base, a.sub, to, sources@, n))
        }),
{
    let es = sources@;
    let n = es.len();
    let to = var_name(f, a.scope, dest);
    lemma_reads(a, f, es, n);
    assert(es.take(n as int) =~= es);
    let (b, rs) = a.all_rhs(f, es);
    lemma_record(b, a.base);
    let c = b.site();
    lemma_given(c, f, a.sub, to, es, rs, n);
    assert(rs.take(n as int) =~= rs);
    let d = c.assign_all(to, rs);
    let p = spares(a.base, a.sub, reads_take(es, n));
    let x = reads_tell(f, a.scope, a.base, a.sub, es, n);
    let y = all_given(f, a.scope, a.base, a.sub, to, es, n);
    lemma_then(b, c, d, seq![Datum::Text(a.base)], Seq::empty(), Seq::empty(), y);
    assert(Seq::<Entry>::empty() + y =~= y);
    assert(seq![Datum::Text(a.base)] + Seq::<Datum>::empty() =~= seq![Datum::Text(a.base)]);
    lemma_then(a, b, d, p, seq![Datum::Text(a.base)], x, y);
    assert(p + seq![Datum::Text(a.base)] =~= p.push(Datum::Text(a.base)));
}

proof fn lemma_joined(a: Pen, f: FunctionData, to: Name, vs: Seq<VariableRef>)
    ensures
        adds(
            a,
            a.join_all(f, to, vs),
            Seq::empty(),
            Seq::new(
                vs.len(),
                |i: int| fact(Kind::Mov, seq![a.base, to, var_name(f, a.scope, vs[i])]),
            ),
        ),
    decreases vs.len(),
{
    let all = Seq::new(
        vs.len(),
        |i: int| fact(Kind::Mov, seq![a.base, to, var_name(f, a.scope, vs[i])]),
    );
    if vs.len() == 0 {
        lemma_stays(a);
        assert(all =~= Seq::empty());
    } else {
        let less = vs.drop_last();
        lemma_joined(a, f, to, less);
        let b = a.join_all(f, to, less);
        let v = var_name(f, a.scope, vs.last());
        let row = rows::three_row(a.base, to, v);
        lemma_note(b, Kind::Mov, row);
        lemma_fact(Kind::Mov, seq![a.base, to, v], row);
        let c = b.note(Kind::Mov, row);
        assert(told(c.log) =~= told(a.log) + all);
        assert(places(c.log) =~= places(a.log) + Seq::empty());
    }
}

/// A join places itself and tells one move for each operand; what flows through
/// parameters and what does nothing write nothing.
pub proof fn law_what_a_join_writes(
    a: Pen,
    f: FunctionData,
    dest: VariableRef,
    operands: Vec<VariableRef>,
)
    ensures
        ({
            let b = a.statement(f, Statement::Phi { dest, operands });
            let to = var_name(f, a.scope, dest);
            &&& places(b.log) == places(a.log).push(Datum::Text(a.base))
            &&& told(b.log) == told(a.log) + Seq::new(
                operands@.len(),
                |i: int| fact(Kind::Mov, seq![a.base, to, var_name(f, a.scope, operands@[i])]),
            )
        }),
        a.statement(f, Statement::ParamFlow).log == a.log,
        a.statement(f, Statement::Nop).log == a.log,
{
    lemma_record(a, a.base);
    let b = a.site();
    let to = var_name(f, a.scope, dest);
    lemma_joined(b, f, to, operands@);
    let c = b.join_all(f, to, operands@);
    assert(places(c.log) =~= places(a.log).push(Datum::Text(a.base)));
    assert(told(b.log) =~= told(a.log));
}

// ---------------------------------------------------------------------------
// Calls
// ---------------------------------------------------------------------------

/// What dispatch reads: the receiver, or what the address of a pointer denotes.
pub open spec fn dispatched_on(
    f: FunctionData,
    scope: Name,
    s: Name,
    k: nat,
    style: CallStyle,
) -> Option<Name> {
    match style {
        CallStyle::JavaCall { receiver, .. } => Some(var_name(f, scope, receiver)),
        CallStyle::LuaCall { receiver, .. } => Some(var_name(f, scope, receiver)),
        CallStyle::FuncPtrCall { callee, .. } => Some(
            hopped(s, k, var_name(f, scope, callee.variable_ref), callee.offsets@),
        ),
        _ => None,
    }
}

/// The offsets that lead to a function pointer, of a call through one.
pub open spec fn pointer_way(style: CallStyle) -> Seq<i64> {
    match style {
        CallStyle::FuncPtrCall { callee, .. } => callee.offsets@,
        _ => Seq::empty(),
    }
}

/// The loads that lead to a function pointer, of a call through one.
pub open spec fn pointer_tells(
    f: FunctionData,
    scope: Name,
    s: Name,
    k: nat,
    style: CallStyle,
) -> Seq<Entry> {
    match style {
        CallStyle::FuncPtrCall { callee, .. } => hops(
            s,
            k,
            var_name(f, scope, callee.variable_ref),
            callee.offsets@,
        ),
        _ => Seq::empty(),
    }
}

/// What a call tells of its callee: each known target, or the signature that dispatch
/// looks up and the kind of site it is.
pub open spec fn callee_tells(s: Name, style: CallStyle, d: Name) -> Seq<Entry> {
    match style {
        CallStyle::DirectCall { targets } => Seq::new(
            targets@.len(),
            |i: int| fact(Kind::DirectCall, seq![s, targets@[i]@]),
        ),
        CallStyle::JavaCall { receiver, cls, simple_name, descriptor } => seq![
            fact(
                Kind::VirtualCall,
                seq![s, d, cls@ + "->"@ + simple_name@ + descriptor@],
            ),
            fact(Kind::ClassSite, seq![cls@, simple_name@, descriptor@]),
        ],
        CallStyle::LuaCall { receiver, method } => seq![
            fact(Kind::VirtualCall, seq![s, d, "lua->"@ + method@]),
            fact(Kind::LuaSite, seq![method@]),
        ],
        CallStyle::FuncPtrCall { callee, signature } => {
            let sig = match signature {
                Some(sig) => sig@,
                None => Seq::empty(),
            };
            seq![
                fact(
                    Kind::VirtualCall,
                    seq![
                        s,
                        d,
                        if sig.len() == 0 {
                            "$fnptr"@
                        } else {
                            "$fnptr("@ + sig + ")"@
                        },
                    ],
                ),
                fact(Kind::PointerSite, seq![sig]),
            ]
        },
        CallStyle::Unknown => Seq::empty(),
    }
}

/// One argument in its slot.
pub open spec fn argument(s: Name, slot: nat, v: Name) -> Entry {
    Entry {
        kind: Kind::ActualArg,
        row: seq![Datum::Text(s), Datum::Num(slot as usize), Datum::Text(v)],
    }
}

/// What a call tells: its arguments made variables, the way to a pointer, what dispatch
/// reads in slot 0, the arguments in their slots (one further on behind a receiver), where
/// the first result goes, and the callee.
pub open spec fn call_tells(
    f: FunctionData,
    scope: Name,
    s: Name,
    k: nat,
    style: CallStyle,
    rets: Seq<VariableRef>,
    args: Seq<Exp>,
) -> Seq<Entry> {
    let n = args.len();
    let next = k + values_take(args, n);
    let d = dispatched_on(f, scope, s, next, style);
    let shift: nat = if style is JavaCall {
        1
    } else {
        0
    };
    values_tell(f, scope, s, k, args, n) + pointer_tells(f, scope, s, next, style) + (match d {
        Some(v) => seq![argument(s, 0, v)],
        None => Seq::empty(),
    }) + Seq::new(
        n,
        |i: int|
            argument(
                s,
                (i + shift) as nat,
                value_var(f, scope, s, k + values_take(args, i as nat), args[i]),
            ),
    ) + (if rets.len() > 0 {
        seq![fact(Kind::BindRet, seq![s, var_name(f, scope, rets[0])])]
    } else {
        Seq::empty()
    }) + callee_tells(
        s,
        style,
        match d {
            Some(v) => v,
            None => Seq::empty(),
        },
    )
}

proof fn lemma_passed(a: Pen, vs: Seq<Name>, shift: nat)
    ensures
        adds(
            a,
            a.pass_all(vs, shift),
            Seq::empty(),
            Seq::new(vs.len(), |i: int| argument(a.base, (i + shift) as nat, vs[i])),
        ),
    decreases vs.len(),
{
    let all = Seq::new(vs.len(), |i: int| argument(a.base, (i + shift) as nat, vs[i]));
    if vs.len() == 0 {
        lemma_stays(a);
        assert(all =~= Seq::empty());
    } else {
        let less = vs.drop_last();
        lemma_passed(a, less, shift);
        let b = a.pass_all(less, shift);
        let row = rows::indexed_row(a.base, (vs.len() - 1 + shift) as usize, vs.last());
        lemma_note(b, Kind::ActualArg, row);
        let c = b.note(Kind::ActualArg, row);
        assert(all.last() == (Entry { kind: Kind::ActualArg, row }));
        assert(told(c.log) =~= told(a.log) + all);
        assert(places(c.log) =~= places(a.log) + Seq::empty());
    }
}

proof fn lemma_targets(a: Pen, targets: Seq<String>)
    ensures
        adds(
            a,
            a.call_all(targets),
            Seq::empty(),
            Seq::new(
                targets.len(),
                |i: int| fact(Kind::DirectCall, seq![a.base, targets[i]@]),
            ),
        ),
    decreases targets.len(),
{
    let all = Seq::new(
        targets.len(),
        |i: int| fact(Kind::DirectCall, seq![a.base, targets[i]@]),
    );
    if targets.len() == 0 {
        lemma_stays(a);
        assert(all =~= Seq::empty());
    } else {
        let less = targets.drop_last();
        lemma_targets(a, less);
        let b = a.call_all(less);
        let row = rows::two_row(a.base, targets.last()@);
        lemma_note(b, Kind::DirectCall, row);
        lemma_fact(Kind::DirectCall, seq![a.base, targets.last()@], row);
        let c = b.note(Kind::DirectCall, row);
        assert(told(c.log) =~= told(a.log) + all);
        assert(places(c.log) =~= places(a.log) + Seq::empty());
    }
}

proof fn lemma_two(a: Pen, kind: Kind, row: Seq<Datum>, other: Kind, more: Seq<Datum>)
    requires
        kind != Kind::InProc,
        other != Kind::InProc,
    ensures
        adds(
            a,
            a.note(kind, row).note(other, more),
            Seq::empty(),
            seq![Entry { kind, row }, Entry { kind: other, row: more }],
        ),
{
    lemma_note(a, kind, row);
    let b = a.note(kind, row);
    lemma_note(b, other, more);
    let c = b.note(other, more);
    assert(places(c.log) =~= places(a.log) + Seq::empty());
    assert(told(c.log) =~= told(a.log) + seq![
        Entry { kind, row },
        Entry { kind: other, row: more },
    ]);
}

proof fn lemma_callee(a: Pen, style: CallStyle, d: Name)
    ensures
        adds(a, a.resolve(style, d), Seq::empty(), callee_tells(a.base, style, d)),
{
    let s = a.base;
    match style {
        CallStyle::DirectCall { targets } => {
            lemma_targets(a, targets@);
        },
        CallStyle::JavaCall { receiver, cls, simple_name, descriptor } => {
            let sig = cls@ + "->"@ + simple_name@ + descriptor@;
            let (x, y) = (
                rows::three_row(s, d, sig),
                rows::three_row(cls@, simple_name@, descriptor@),
            );
            lemma_fact(Kind::VirtualCall, seq![s, d, sig], x);
            lemma_fact(Kind::ClassSite, seq![cls@, simple_name@, descriptor@], y);
            lemma_two(a, Kind::VirtualCall, x, Kind::ClassSite, y);
        },
        CallStyle::LuaCall { receiver, method } => {
            let sig = "lua->"@ + method@;
            let (x, y) = (rows::three_row(s, d, sig), rows::one_row(method@));
            lemma_fact(Kind::VirtualCall, seq![s, d, sig], x);
            lemma_fact(Kind::LuaSite, seq![method@], y);
            lemma_two(a, Kind::VirtualCall, x, Kind::LuaSite, y);
        },
        CallStyle::FuncPtrCall { callee, signature } => {
            let sig = match signature {
                Some(sig) => sig@,
                None => Seq::empty(),
            };
            let whole = if sig.len() == 0 {
                "$fnptr"@
            } else {
                "$fnptr("@ + sig + ")"@
            };
            let (x, y) = (rows::three_row(s, d, whole), rows::one_row(sig));
            lemma_fact(Kind::VirtualCall, seq![s, d, whole], x);
            lemma_fact(Kind::PointerSite, seq![sig], y);
            lemma_two(a, Kind::VirtualCall, x, Kind::PointerSite, y);
        },
        CallStyle::Unknown => {
            lemma_stays(a);
        },
    }
}

proof fn lemma_operand(a: Pen, f: FunctionData, style: CallStyle)
    ensures
        ({
            let (b, d) = a.operand(f, style);
            &&& adds(
                a,
                b,
                spares(a.base, a.sub, pointer_way(style).len()),
                pointer_tells(f, a.scope, a.base, a.sub, style),
            )
            &&& d == dispatched_on(f, a.scope, a.base, a.sub, style)
        }),
{
    lemma_stays(a);
    match style {
        CallStyle::FuncPtrCall { callee, signature } => {
            lemma_walk(a, var_name(f, a.scope, callee.variable_ref), callee.offsets@);
        },
        _ => {},
    }
}

proof fn lemma_silent(a: Pen, b: Pen, c: Pen, p: Seq<Datum>, x: Seq<Entry>, y: Seq<Entry>)
    requires
        adds(a, b, p, x),
        adds(b, c, Seq::empty(), y),
    ensures
        adds(a, c, p, x + y),
{
    lemma_then(a, b, c, p, Seq::empty(), x, y);
    assert(p + Seq::<Datum>::empty() =~= p);
}

/// A call places the temporaries of its arguments and of its pointer and itself, and tells
/// its arguments, its result and its callee.
pub proof fn law_what_a_call_writes(
    a: Pen,
    f: FunctionData,
    style: CallStyle,
    rets: Vec<VariableRef>,
    args: Vec<Exp>,
)
    ensures
        ({
            let b = a.statement(f, Statement::CallAssign { style, rets, args });
            let n = values_take(args@, args@.len()) + pointer_way(style).len();
            &&& places(b.log) == places(a.log) + spares(a.base, a.sub, n).push(
                Datum::Text(a.base),
            )
            &&& told(b.log) == told(a.log) + call_tells(
                f,
                a.scope,
                a.base,
                a.sub,
                style,
                rets@,
                args@,
            )
        }),
{
    let s = a.base;
    let es = args@;
    let n = es.len();
    lemma_values(a, f, es, n);
    assert(es.take(n as int) =~= es);
    let (b, vs) = a.all_vars(f, es);
    let taken = values_take(es, n);
    let way = pointer_way(style).len();
    lemma_operand(b, f, style);
    let (c, d) = b.operand(f, style);
    let x1 = values_tell(f, a.scope, s, a.sub, es, n);
    let x2 = pointer_tells(f, a.scope, s, b.sub, style);
    lemma_then(a, b, c, spares(s, a.sub, taken), spares(s, b.sub, way), x1, x2);
    lemma_spares(s, a.sub, taken, way);
    let p = spares(s, a.sub, taken + way);
    assert(adds(a, c, p, x1 + x2));
    lemma_record(c, s);
    let g = c.site();
    let here = Datum::Text(s);
    lemma_then(a, c, g, p, seq![here], x1 + x2, Seq::empty());
    assert(p + seq![here] =~= p.push(here));
    assert(x1 + x2 + Seq::<Entry>::empty() =~= x1 + x2);
    let q = p.push(here);
    assert(adds(a, g, q, x1 + x2));
    let x3 = match d {
        Some(v) => seq![argument(s, 0, v)],
        None => Seq::empty(),
    };
    let h = match d {
        Some(v) => g.note(Kind::ActualArg, rows::indexed_row(s, 0, v)),
        None => g,
    };
    assert(adds(g, h, Seq::empty(), x3)) by {
        match d {
            Some(v) => {
                lemma_note(g, Kind::ActualArg, rows::indexed_row(s, 0, v));
            },
            None => {
                lemma_stays(g);
            },
        }
    }
    lemma_silent(a, g, h, q, x1 + x2, x3);
    let shift: nat = if style is JavaCall {
        1
    } else {
        0
    };
    lemma_passed(h, vs, shift);
    let i = h.pass_all(vs, shift);
    let x4 = Seq::new(
        n,
        |i: int|
            argument(
                s,
                (i + shift) as nat,
                value_var(f, a.scope, s, a.sub + values_take(es, i as nat), es[i]),
            ),
    );
    assert(x4 =~= Seq::new(vs.len(), |i: int| argument(s, (i + shift) as nat, vs[i])));
    lemma_silent(a, h, i, q, x1 + x2 + x3, x4);
    let x5 = if rets@.len() > 0 {
        seq![fact(Kind::BindRet, seq![s, var_name(f, a.scope, rets@[0])])]
    } else {
        Seq::empty()
    };
    let j = if rets@.len() > 0 {
        i.note(Kind::BindRet, rows::two_row(s, var_name(f, a.scope, rets@[0])))
    } else {
        i
    };
    assert(adds(i, j, Seq::empty(), x5)) by {
        if rets@.len() > 0 {
            let v = var_name(f, a.scope, rets@[0]);
            lemma_note(i, Kind::BindRet, rows::two_row(s, v));
            lemma_fact(Kind::BindRet, seq![s, v], rows::two_row(s, v));
        } else {
            lemma_stays(i);
        }
    }
    lemma_silent(a, i, j, q, x1 + x2 + x3 + x4, x5);
    let on = match d {
        Some(v) => v,
        None => Seq::empty(),
    };
    lemma_callee(j, style, on);
    let last = j.resolve(style, on);
    lemma_silent(a, j, last, q, x1 + x2 + x3 + x4 + x5, callee_tells(s, style, on));
    assert(last == a.statement(f, Statement::CallAssign { style, rets, args }));
}

} // verus!
