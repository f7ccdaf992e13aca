//! The mapping from statements to facts, stated directly.
//!
//! [`crate::lower`] writes the facts of a statement one after the other. Here is what
//! they come to: which facts a statement adds, and which it does not.
use vstd::prelude::*;

use crate::cir::{Address, CallObject, CallStyle, Exp, FunctionData, Statement, VariableRef};
use crate::ir::Name;
use crate::ledger::{noted, Entry, Kind};
use crate::lower::{
    class_sig, constant, is_global, lua_sig, object_type, pointer_sig, var_name, Pen, Rhs,
};
use crate::rows::{self, Datum};
use crate::text::{decimal, signed_decimal};

verus! {

// ---------------------------------------------------------------------------
// Notes of one kind
// ---------------------------------------------------------------------------

proof fn lemma_noted(log: Seq<Entry>, e: Entry, kind: Kind)
    ensures
        noted(log.push(e), kind) == (if e.kind == kind {
            noted(log, kind).push(e.row)
        } else {
            noted(log, kind)
        }),
{
    assert(log.push(e).drop_last() =~= log);
}

/// The notes that give a variable a value outright: moves, constants and allocations.
pub open spec fn givings(log: Seq<Entry>) -> Seq<Entry>
    decreases log.len(),
{
    if log.len() == 0 {
        log
    } else {
        let rest = givings(log.drop_last());
        match log.last().kind {
            Kind::Mov | Kind::ConstAssign | Kind::Alloc => rest.push(log.last()),
            _ => rest,
        }
    }
}

proof fn lemma_givings(log: Seq<Entry>, e: Entry)
    ensures
        givings(log.push(e)) == (match e.kind {
            Kind::Mov | Kind::ConstAssign | Kind::Alloc => givings(log).push(e),
            _ => givings(log),
        }),
{
    assert(log.push(e).drop_last() =~= log);
}

/// The pen writes nothing of the kind on the way from `a` to `b`.
pub open spec fn silent(a: Pen, b: Pen, kind: Kind) -> bool {
    noted(b.log, kind) == noted(a.log, kind)
}

/// The label, the procedure and what qualifies its names stay.
spec fn stays(a: Pen, b: Pen) -> bool {
    a.base == b.base && a.scope == b.scope && a.proc == b.proc
}

// ---------------------------------------------------------------------------
// Operands
// ---------------------------------------------------------------------------

proof fn lemma_record(a: Pen, s: Name, kind: Kind)
    ensures
        kind != Kind::InProc ==> silent(a, a.record(s), kind),
        givings(a.record(s).log) == givings(a.log),
        stays(a, a.record(s)),
{
    let e = Entry { kind: Kind::InProc, row: rows::placed_row(s, a.proc, a.line as usize) };
    lemma_noted(a.log, e, kind);
    lemma_givings(a.log, e);
}

/// Whether following offsets, or settling an operand, writes facts of the kind.
pub open spec fn of_operands(kind: Kind) -> bool {
    match kind {
        Kind::InProc | Kind::LoadIndexConst | Kind::ConstAssign | Kind::Alloc | Kind::AllocType
        | Kind::Taken => true,
        _ => false,
    }
}

proof fn lemma_walk(a: Pen, from: Name, offsets: Seq<i64>, kind: Kind)
    ensures
        !of_operands(kind) ==> silent(a, a.walk(from, offsets).0, kind),
        givings(a.walk(from, offsets).0.log) == givings(a.log),
        stays(a, a.walk(from, offsets).0),
    decreases offsets.len(),
{
    if offsets.len() > 0 {
        lemma_walk(a, from, offsets.drop_last(), kind);
        let (b, cur) = a.walk(from, offsets.drop_last());
        lemma_record(b, b.temp_label(), kind);
        let e = Entry {
            kind: Kind::LoadIndexConst,
            row: rows::four_row(
                b.temp_label(),
                b.temp_var(),
                cur,
                signed_decimal(offsets.last() as int),
            ),
        };
        lemma_noted(b.temp().log, e, kind);
        lemma_givings(b.temp().log, e);
    }
}

proof fn lemma_rhs(a: Pen, f: FunctionData, e: Exp, kind: Kind)
    ensures
        !of_operands(kind) ==> silent(a, a.rhs(f, e).0, kind),
        givings(a.rhs(f, e).0.log) == givings(a.log),
        stays(a, a.rhs(f, e).0),
{
    match e {
        Exp::AccessPath(x) => {
            lemma_walk(a, var_name(f, a.scope, x.variable_ref), x.offsets@, kind);
        },
        Exp::ObjectRef(o) => {
            if let CallObject::FunctionPtr(name) = o {
                let n = Entry { kind: Kind::Taken, row: rows::one_row(name@) };
                lemma_noted(a.log, n, kind);
                lemma_givings(a.log, n);
            }
        },
        _ => {},
    }
}

proof fn lemma_all_rhs(a: Pen, f: FunctionData, es: Seq<Exp>, kind: Kind)
    ensures
        !of_operands(kind) ==> silent(a, a.all_rhs(f, es).0, kind),
        givings(a.all_rhs(f, es).0.log) == givings(a.log),
        stays(a, a.all_rhs(f, es).0),
        a.all_rhs(f, es).1.len() == es.len(),
        forall|i: int|
            0 <= i < es.len() ==> gives(f, a.scope, es[i], #[trigger] a.all_rhs(f, es).1[i]),
    decreases es.len(),
{
    if es.len() > 0 {
        lemma_all_rhs(a, f, es.drop_last(), kind);
        let (b, done) = a.all_rhs(f, es.drop_last());
        lemma_rhs(b, f, es.last(), kind);
        assert forall|i: int| 0 <= i < es.len() implies gives(
            f,
            a.scope,
            es[i],
            #[trigger] a.all_rhs(f, es).1[i],
        ) by {
            if i < es.len() - 1 {
                assert(es.drop_last()[i] == es[i]);
                assert(a.all_rhs(f, es).1[i] == done[i]);
            }
        }
    }
}

proof fn lemma_settle(a: Pen, r: Rhs, kind: Kind)
    ensures
        !of_operands(kind) ==> silent(a, a.settle(r).0, kind),
        stays(a, a.settle(r).0),
{
    let (s, t) = (a.temp_label(), a.temp_var());
    lemma_record(a, s, kind);
    match r {
        Rhs::Var(v) => {},
        Rhs::Const(c) => {
            let e = Entry { kind: Kind::ConstAssign, row: rows::three_row(s, t, c) };
            lemma_noted(a.temp().log, e, kind);
        },
        Rhs::Object(ty) => {
            let site = "l:"@ + s;
            let e = Entry { kind: Kind::Alloc, row: rows::three_row(s, t, site) };
            lemma_noted(a.temp().log, e, kind);
            let n = Entry { kind: Kind::AllocType, row: rows::two_row(site, ty) };
            lemma_noted(a.temp().log.push(e), n, kind);
        },
    }
}

proof fn lemma_all_vars(a: Pen, f: FunctionData, es: Seq<Exp>, kind: Kind)
    ensures
        !of_operands(kind) ==> silent(a, a.all_vars(f, es).0, kind),
        stays(a, a.all_vars(f, es).0),
        a.all_vars(f, es).1.len() == es.len(),
        forall|i: int|
            0 <= i < es.len() && #[trigger] es[i] is Variable
                ==> a.all_vars(f, es).1[i] == var_name(
                f,
                a.scope,
                es[i]->Variable_0,
            ),
    decreases es.len(),
{
    if es.len() > 0 {
        let last = es.last();
        lemma_all_vars(a, f, es.drop_last(), kind);
        let (b, done) = a.all_vars(f, es.drop_last());
        lemma_rhs(b, f, last, kind);
        lemma_settle(b.rhs(f, last).0, b.rhs(f, last).1, kind);
        assert forall|i: int| 0 <= i < es.len() && #[trigger] es[i] is Variable implies a.all_vars(
            f,
            es,
        ).1[i] == var_name(f, a.scope, es[i]->Variable_0) by {
            if i < es.len() - 1 {
                assert(es.drop_last()[i] == es[i]);
                assert(a.all_vars(f, es).1[i] == done[i]);
            }
        }
    }
}

// ---------------------------------------------------------------------------
// Assignments
// ---------------------------------------------------------------------------

/// What an expression contributes: a variable itself, an object its type, a literal its
/// text. An access path contributes the variable that its last offset was read into.
pub open spec fn gives(f: FunctionData, scope: Name, e: Exp, r: Rhs) -> bool {
    match e {
        Exp::Variable(v) => r == Rhs::Var(var_name(f, scope, v)),
        Exp::AccessPath(a) => r is Var && (a.offsets@.len() == 0 ==> r == Rhs::Var(
            var_name(f, scope, a.variable_ref),
        )),
        Exp::ObjectRef(o) => r == Rhs::Object(object_type(o)),
        _ => r == Rhs::Const(constant(e)),
    }
}

/// The fact by which source `i` of statement `s` gives `to` its value.
pub open spec fn giving(s: Name, to: Name, r: Rhs, i: nat) -> Entry {
    match r {
        Rhs::Var(v) => Entry { kind: Kind::Mov, row: rows::three_row(s, to, v) },
        Rhs::Const(c) => Entry { kind: Kind::ConstAssign, row: rows::three_row(s, to, c) },
        Rhs::Object(ty) => Entry {
            kind: Kind::Alloc,
            row: rows::three_row(s, to, "l:"@ + s + ":"@ + decimal(i)),
        },
    }
}

pub open spec fn all_givings(s: Name, to: Name, rs: Seq<Rhs>) -> Seq<Entry> {
    Seq::new(rs.len(), |i: int| giving(s, to, rs[i], i as nat))
}

proof fn lemma_assign_all(a: Pen, to: Name, rs: Seq<Rhs>)
    ensures
        givings(a.assign_all(to, rs).log) == givings(a.log) + all_givings(a.base, to, rs),
        stays(a, a.assign_all(to, rs)),
    decreases rs.len(),
{
    if rs.len() == 0 {
        assert(givings(a.log) + all_givings(a.base, to, rs) =~= givings(a.log));
    } else {
        let b = a.assign_all(to, rs.drop_last());
        lemma_assign_all(a, to, rs.drop_last());
        let i = (rs.len() - 1) as nat;
        let g = giving(a.base, to, rs.last(), i);
        lemma_givings(b.log, g);
        if let Rhs::Object(ty) = rs.last() {
            let site = "l:"@ + a.base + ":"@ + decimal(i);
            lemma_givings(
                b.log.push(g),
                Entry { kind: Kind::AllocType, row: rows::two_row(site, ty) },
            );
        }
        assert(all_givings(a.base, to, rs) =~= all_givings(a.base, to, rs.drop_last()).push(g));
        assert(givings(a.log) + all_givings(a.base, to, rs) =~= (givings(a.log) + all_givings(
            a.base,
            to,
            rs.drop_last(),
        )).push(g));
    }
}

/// An assignment adds exactly one fact per source, in order and under its own label: a
/// move, a constant, or an allocation with a site of its own. What each is follows from
/// the source alone.
pub proof fn law_assignment_adds_a_fact_per_source(
    a: Pen,
    f: FunctionData,
    dest: VariableRef,
    sources: Vec<Exp>,
)
    ensures
        ({
            let b = a.statement(f, Statement::Assign { dest, sources });
            let rs = a.all_rhs(f, sources@).1;
            &&& rs.len() == sources@.len()
            &&& forall|i: int|
                0 <= i < rs.len() ==> gives(f, a.scope, sources@[i], #[trigger] rs[i])
            &&& givings(b.log) == givings(a.log) + all_givings(
                a.base,
                var_name(f, a.scope, dest),
                rs,
            )
        }),
{
    let (c, rs) = a.all_rhs(f, sources@);
    lemma_all_rhs(a, f, sources@, Kind::Mov);
    lemma_record(c, c.base, Kind::Mov);
    lemma_assign_all(c.site(), var_name(f, a.scope, dest), rs);
}

/// A join adds exactly one move per operand, in order and under its own label.
pub proof fn law_join_adds_a_move_per_operand(
    a: Pen,
    f: FunctionData,
    dest: VariableRef,
    operands: Vec<VariableRef>,
)
    ensures
        ({
            let b = a.statement(f, Statement::Phi { dest, operands });
            let to = var_name(f, a.scope, dest);
            noted(b.log, Kind::Mov) == noted(a.log, Kind::Mov) + Seq::new(
                operands@.len(),
                |i: int| rows::three_row(a.base, to, var_name(f, a.scope, operands@[i])),
            )
        }),
{
    lemma_record(a, a.base, Kind::Mov);
    lemma_join_all(a.site(), f, var_name(f, a.scope, dest), operands@);
}

proof fn lemma_join_all(a: Pen, f: FunctionData, to: Name, vs: Seq<VariableRef>)
    ensures
        noted(a.join_all(f, to, vs).log, Kind::Mov) == noted(a.log, Kind::Mov) + Seq::new(
            vs.len(),
            |i: int| rows::three_row(a.base, to, var_name(f, a.scope, vs[i])),
        ),
        stays(a, a.join_all(f, to, vs)),
    decreases vs.len(),
{
    let all = Seq::new(
        vs.len(),
        |i: int| rows::three_row(a.base, to, var_name(f, a.scope, vs[i])),
    );
    if vs.len() == 0 {
        assert(noted(a.log, Kind::Mov) + all =~= noted(a.log, Kind::Mov));
    } else {
        let rest = vs.drop_last();
        lemma_join_all(a, f, to, rest);
        let row = rows::three_row(a.base, to, var_name(f, a.scope, vs.last()));
        lemma_noted(a.join_all(f, to, rest).log, Entry { kind: Kind::Mov, row }, Kind::Mov);
        let part = Seq::new(
            rest.len(),
            |i: int| rows::three_row(a.base, to, var_name(f, a.scope, rest[i])),
        );
        assert(all =~= part.push(row));
        assert(noted(a.log, Kind::Mov) + all =~= (noted(a.log, Kind::Mov) + part).push(row));
    }
}

// ---------------------------------------------------------------------------
// Loads and stores
// ---------------------------------------------------------------------------

/// The rows that a statement adds for the relation, if it adds one.
pub open spec fn at_most(row: Option<Seq<Datum>>) -> Seq<Seq<Datum>> {
    match row {
        Some(row) => seq![row],
        None => Seq::empty(),
    }
}

proof fn lemma_one(a: Pen, b: Pen, kind: Kind, row: Seq<Datum>, other: Kind)
    requires
        other != Kind::InProc,
        silent(a, b, other),
    ensures
        noted(b.site().note(kind, row).log, other) == noted(a.log, other) + at_most(
            if kind == other {
                Some(row)
            } else {
                None
            },
        ),
{
    lemma_record(b, b.base, other);
    lemma_noted(b.site().log, Entry { kind, row }, other);
    let was = noted(a.log, other);
    assert(was + seq![row] =~= was.push(row));
    assert(was + Seq::<Seq<Datum>>::empty() =~= was);
}

/// A load adds one fact under its own label: it reads the global heap by name where its
/// source is the heap itself, and a field of what its source denotes otherwise.
pub proof fn law_load_adds_one_read(
    a: Pen,
    f: FunctionData,
    dest: VariableRef,
    source: Address,
    field: String,
)
    ensures
        ({
            let b = a.statement(f, Statement::Load { dest, source, field });
            let to = var_name(f, a.scope, dest);
            let base = a.address(f, source).1;
            &&& noted(b.log, Kind::LoadStatic) == noted(a.log, Kind::LoadStatic) + at_most(
                if is_global(source) {
                    Some(rows::four_row(a.base, to, "$globals"@, field@))
                } else {
                    None
                },
            )
            &&& noted(b.log, Kind::LoadField) == noted(a.log, Kind::LoadField) + at_most(
                if is_global(source) {
                    None
                } else {
                    Some(rows::four_row(a.base, to, base, field@))
                },
            )
        }),
{
    let to = var_name(f, a.scope, dest);
    if is_global(source) {
        let row = rows::four_row(a.base, to, "$globals"@, field@);
        lemma_one(a, a, Kind::LoadStatic, row, Kind::LoadStatic);
        lemma_one(a, a, Kind::LoadStatic, row, Kind::LoadField);
    } else {
        let (b, base) = a.address(f, source);
        let from = var_name(f, a.scope, source.variable_ref);
        lemma_walk(a, from, source.offsets@, Kind::LoadStatic);
        lemma_walk(a, from, source.offsets@, Kind::LoadField);
        let row = rows::four_row(a.base, to, base, field@);
        lemma_one(a, b, Kind::LoadField, row, Kind::LoadStatic);
        lemma_one(a, b, Kind::LoadField, row, Kind::LoadField);
    }
}

/// The fact that a store adds: a field of what the address denotes, a name of the global
/// heap, or, without a field, the last offset of the address. Without a field and without
/// an offset there is nothing to store through.
pub open spec fn storing(a: Pen, f: FunctionData, dest: Address, field: Name, value: Exp) -> Option<
    Entry,
> {
    let (b, from) = a.exp_var(f, value);
    let at = var_name(f, a.scope, dest.variable_ref);
    if field.len() == 0 && dest.offsets@.len() == 0 {
        None
    } else if field.len() == 0 {
        Some(
            Entry {
                kind: Kind::StoreIndexConst,
                row: rows::four_row(
                    a.base,
                    b.walk(at, dest.offsets@.drop_last()).1,
                    signed_decimal(dest.offsets@.last() as int),
                    from,
                ),
            },
        )
    } else if is_global(dest) {
        Some(
            Entry {
                kind: Kind::StoreStatic,
                row: rows::four_row(a.base, "$globals"@, field, from),
            },
        )
    } else {
        Some(
            Entry {
                kind: Kind::StoreField,
                row: rows::four_row(a.base, b.walk(at, dest.offsets@).1, field, from),
            },
        )
    }
}

/// A store adds at most one fact, under its own label, and the address and the field say
/// which.
pub proof fn law_store_adds_one_write(
    a: Pen,
    f: FunctionData,
    address: Address,
    field: String,
    value: Exp,
    kind: Kind,
)
    requires
        kind == Kind::StoreField || kind == Kind::StoreStatic || kind == Kind::StoreIndexConst,
    ensures
        ({
            let b = a.statement(f, Statement::Store { address, field, value });
            noted(b.log, kind) == noted(a.log, kind) + at_most(
                match storing(a, f, address, field@, value) {
                    Some(e) => if e.kind == kind {
                        Some(e.row)
                    } else {
                        None
                    },
                    None => None,
                },
            )
        }),
{
    let (b, from) = a.exp_var(f, value);
    lemma_rhs(a, f, value, kind);
    lemma_settle(a.rhs(f, value).0, a.rhs(f, value).1, kind);
    let at = var_name(f, a.scope, address.variable_ref);
    let was = noted(a.log, kind);
    assert(was + Seq::<Seq<Datum>>::empty() =~= was);
    if field@.len() == 0 {
        if address.offsets@.len() > 0 {
            let offsets = address.offsets@.drop_last();
            lemma_walk(b, at, offsets, kind);
            let e = storing(a, f, address, field@, value)->Some_0;
            lemma_one(a, b.walk(at, offsets).0, e.kind, e.row, kind);
        }
    } else if is_global(address) {
        let e = storing(a, f, address, field@, value)->Some_0;
        lemma_one(a, b, e.kind, e.row, kind);
    } else {
        lemma_walk(b, at, address.offsets@, kind);
        let e = storing(a, f, address, field@, value)->Some_0;
        lemma_one(a, b.walk(at, address.offsets@).0, e.kind, e.row, kind);
    }
}

// ---------------------------------------------------------------------------
// Calls
// ---------------------------------------------------------------------------

/// How far the arguments of a call move up: past the receiver, where the receiver is no
/// argument already.
pub open spec fn shift(style: CallStyle) -> nat {
    if style is JavaCall {
        1
    } else {
        0
    }
}

/// The arguments of statement `s`, each at its slot.
pub open spec fn arguments(s: Name, argv: Seq<Name>, shift: nat) -> Seq<Seq<Datum>> {
    Seq::new(argv.len(), |i: int| rows::indexed_row(s, (i + shift) as usize, argv[i]))
}

/// The operand that dispatch reads, at slot 0.
pub open spec fn dispatched(s: Name, d: Option<Name>) -> Seq<Seq<Datum>> {
    match d {
        Some(d) => seq![rows::indexed_row(s, 0, d)],
        None => Seq::empty(),
    }
}

/// What a call's style says of its callee: one direct call per target, or one virtual
/// call on the operand.
pub open spec fn direct_calls(s: Name, style: CallStyle) -> Seq<Seq<Datum>> {
    match style {
        CallStyle::DirectCall { targets } => Seq::new(
            targets@.len(),
            |i: int| rows::two_row(s, targets@[i]@),
        ),
        _ => Seq::empty(),
    }
}

pub open spec fn virtual_calls(s: Name, style: CallStyle, d: Name) -> Seq<Seq<Datum>> {
    match style {
        CallStyle::JavaCall { receiver, cls, simple_name, descriptor } => seq![
            rows::three_row(s, d, class_sig(cls@, simple_name@, descriptor@)),
        ],
        CallStyle::LuaCall { receiver, method } => seq![rows::three_row(s, d, lua_sig(method@))],
        CallStyle::FuncPtrCall { callee, signature } => seq![
            rows::three_row(
                s,
                d,
                pointer_sig(
                    match signature {
                        Some(sig) => sig@,
                        None => Seq::empty(),
                    },
                ),
            ),
        ],
        _ => Seq::empty(),
    }
}

proof fn lemma_pass_all(a: Pen, args: Seq<Name>, k: nat, kind: Kind)
    ensures
        noted(a.pass_all(args, k).log, kind) == (if kind == Kind::ActualArg {
            noted(a.log, kind) + arguments(a.base, args, k)
        } else {
            noted(a.log, kind)
        }),
        stays(a, a.pass_all(args, k)),
    decreases args.len(),
{
    if args.len() == 0 {
        assert(noted(a.log, kind) + arguments(a.base, args, k) =~= noted(a.log, kind));
    } else {
        let rest = args.drop_last();
        lemma_pass_all(a, rest, k, kind);
        let row = rows::indexed_row(a.base, (args.len() - 1 + k) as usize, args.last());
        lemma_noted(a.pass_all(rest, k).log, Entry { kind: Kind::ActualArg, row }, kind);
        assert(arguments(a.base, args, k) =~= arguments(a.base, rest, k).push(row));
        assert(noted(a.log, kind) + arguments(a.base, args, k) =~= (noted(a.log, kind) + arguments(
            a.base,
            rest,
            k,
        )).push(row));
    }
}

proof fn lemma_call_all(a: Pen, targets: Seq<String>, kind: Kind)
    ensures
        noted(a.call_all(targets).log, kind) == (if kind == Kind::DirectCall {
            noted(a.log, kind) + Seq::new(
                targets.len(),
                |i: int| rows::two_row(a.base, targets[i]@),
            )
        } else {
            noted(a.log, kind)
        }),
        stays(a, a.call_all(targets)),
    decreases targets.len(),
{
    let all = Seq::new(targets.len(), |i: int| rows::two_row(a.base, targets[i]@));
    if targets.len() == 0 {
        assert(noted(a.log, kind) + all =~= noted(a.log, kind));
    } else {
        let rest = targets.drop_last();
        lemma_call_all(a, rest, kind);
        let row = rows::two_row(a.base, targets.last()@);
        lemma_noted(a.call_all(rest).log, Entry { kind: Kind::DirectCall, row }, kind);
        let part = Seq::new(rest.len(), |i: int| rows::two_row(a.base, rest[i]@));
        assert(all =~= part.push(row));
        assert(noted(a.log, kind) + all =~= (noted(a.log, kind) + part).push(row));
    }
}

proof fn lemma_resolve(a: Pen, style: CallStyle, d: Name, kind: Kind)
    requires
        kind == Kind::ActualArg || kind == Kind::BindRet || kind == Kind::DirectCall || kind
            == Kind::VirtualCall,
    ensures
        noted(a.resolve(style, d).log, kind) == noted(a.log, kind) + (match kind {
            Kind::DirectCall => direct_calls(a.base, style),
            Kind::VirtualCall => virtual_calls(a.base, style, d),
            _ => Seq::empty(),
        }),
{
    let was = noted(a.log, kind);
    assert(was + Seq::<Seq<Datum>>::empty() =~= was);
    match style {
        CallStyle::DirectCall { targets } => {
            lemma_call_all(a, targets@, kind);
        },
        CallStyle::JavaCall { receiver, cls, simple_name, descriptor } => {
            let row = rows::three_row(a.base, d, class_sig(cls@, simple_name@, descriptor@));
            let e = Entry { kind: Kind::VirtualCall, row };
            let n = Entry {
                kind: Kind::ClassSite,
                row: rows::three_row(cls@, simple_name@, descriptor@),
            };
            lemma_noted(a.log, e, kind);
            lemma_noted(a.log.push(e), n, kind);
            assert(was + seq![row] =~= was.push(row));
        },
        CallStyle::LuaCall { receiver, method } => {
            let row = rows::three_row(a.base, d, lua_sig(method@));
            let e = Entry { kind: Kind::VirtualCall, row };
            let n = Entry { kind: Kind::LuaSite, row: rows::one_row(method@) };
            lemma_noted(a.log, e, kind);
            lemma_noted(a.log.push(e), n, kind);
            assert(was + seq![row] =~= was.push(row));
        },
        CallStyle::FuncPtrCall { callee, signature } => {
            let sig = match signature {
                Some(sig) => sig@,
                None => Seq::empty(),
            };
            let row = rows::three_row(a.base, d, pointer_sig(sig));
            let e = Entry { kind: Kind::VirtualCall, row };
            let n = Entry { kind: Kind::PointerSite, row: rows::one_row(sig) };
            lemma_noted(a.log, e, kind);
            lemma_noted(a.log.push(e), n, kind);
            assert(was + seq![row] =~= was.push(row));
        },
        CallStyle::Unknown => {},
    }
}

/// What `b` says of the call at hand beyond what `a` says.
pub open spec fn called(
    a: Pen,
    b: Pen,
    f: FunctionData,
    style: CallStyle,
    rets: Seq<VariableRef>,
    argv: Seq<Name>,
    d: Option<Name>,
) -> bool {
    let s = a.base;
    &&& noted(b.log, Kind::ActualArg) == noted(a.log, Kind::ActualArg) + dispatched(s, d)
        + arguments(s, argv, shift(style))
    &&& noted(b.log, Kind::BindRet) == noted(a.log, Kind::BindRet) + (if rets.len() > 0 {
        seq![rows::two_row(s, var_name(f, a.scope, rets[0]))]
    } else {
        Seq::empty()
    })
    &&& noted(b.log, Kind::DirectCall) == noted(a.log, Kind::DirectCall) + direct_calls(s, style)
    &&& noted(b.log, Kind::VirtualCall) == noted(a.log, Kind::VirtualCall) + virtual_calls(
        s,
        style,
        match d {
            Some(d) => d,
            None => Seq::empty(),
        },
    )
}

/// A call puts what dispatch reads at slot 0. The arguments of a Java call follow it,
/// argument `i` at slot `i + 1`; in the other styles argument `i` is at slot `i`. Of
/// several results the first is bound, and the style gives one direct call per target or
/// one virtual call. No other call, argument or result is added.
pub proof fn law_call_places_its_arguments(
    a: Pen,
    f: FunctionData,
    style: CallStyle,
    rets: Vec<VariableRef>,
    args: Vec<Exp>,
)
    ensures
        ({
            let b = a.statement(f, Statement::CallAssign { style, rets, args });
            let (c, argv) = a.all_vars(f, args@);
            &&& argv.len() == args@.len()
            &&& forall|i: int|
                0 <= i < args@.len() && #[trigger] args@[i] is Variable ==> argv[i] == var_name(
                    f,
                    a.scope,
                    args@[i]->Variable_0,
                )
            &&& called(a, b, f, style, rets@, argv, c.operand(f, style).1)
        }),
{
    lemma_all_vars(a, f, args@, Kind::ActualArg);
    lemma_call_kind(a, f, style, rets@, args@, Kind::ActualArg);
    lemma_call_kind(a, f, style, rets@, args@, Kind::BindRet);
    lemma_call_kind(a, f, style, rets@, args@, Kind::DirectCall);
    lemma_call_kind(a, f, style, rets@, args@, Kind::VirtualCall);
}

proof fn lemma_call_kind(
    a: Pen,
    f: FunctionData,
    style: CallStyle,
    rets: Seq<VariableRef>,
    args: Seq<Exp>,
    kind: Kind,
)
    requires
        kind == Kind::ActualArg || kind == Kind::BindRet || kind == Kind::DirectCall || kind
            == Kind::VirtualCall,
    ensures
        ({
            let (c, argv) = a.all_vars(f, args);
            let d = c.operand(f, style).1;
            let s = a.base;
            noted(a.call(f, style, rets, args).log, kind) == noted(a.log, kind) + (match kind {
                Kind::ActualArg => dispatched(s, d) + arguments(s, argv, shift(style)),
                Kind::BindRet => if rets.len() > 0 {
                    seq![rows::two_row(s, var_name(f, a.scope, rets[0]))]
                } else {
                    Seq::empty()
                },
                Kind::DirectCall => direct_calls(s, style),
                _ => virtual_calls(
                    s,
                    style,
                    match d {
                        Some(d) => d,
                        None => Seq::empty(),
                    },
                ),
            })
        }),
        kind == Kind::ActualArg ==> ({
            let (c, argv) = a.all_vars(f, args);
            let d = c.operand(f, style).1;
            noted(a.call(f, style, rets, args).log, kind) == noted(a.log, kind) + dispatched(
                a.base,
                d,
            ) + arguments(a.base, argv, shift(style))
        }),
{
    let (b, argv) = a.all_vars(f, args);
    lemma_all_vars(a, f, args, kind);
    let (c, d) = b.operand(f, style);
    if let CallStyle::FuncPtrCall { callee, signature } = style {
        lemma_walk(b, var_name(f, b.scope, callee.variable_ref), callee.offsets@, kind);
    }
    lemma_record(c, c.base, kind);
    let s = a.base;
    let e = match d {
        Some(x) => c.site().note(Kind::ActualArg, rows::indexed_row(s, 0, x)),
        None => c.site(),
    };
    let was = noted(a.log, kind);
    assert(was + Seq::<Seq<Datum>>::empty() =~= was);
    if let Some(x) = d {
        let row = rows::indexed_row(s, 0, x);
        lemma_noted(c.site().log, Entry { kind: Kind::ActualArg, row }, kind);
        assert(was + seq![row] =~= was.push(row));
    }
    lemma_pass_all(e, argv, shift(style), kind);
    let g = e.pass_all(argv, shift(style));
    if rets.len() > 0 {
        let row = rows::two_row(s, var_name(f, a.scope, rets[0]));
        lemma_noted(g.log, Entry { kind: Kind::BindRet, row }, kind);
        assert(was + seq![row] =~= was.push(row));
    }
    let h = if rets.len() > 0 {
        g.note(Kind::BindRet, rows::two_row(s, var_name(f, a.scope, rets[0])))
    } else {
        g
    };
    let name = match d {
        Some(d) => d,
        None => Seq::empty(),
    };
    lemma_resolve(h, style, name, kind);
    let (x, y) = (dispatched(s, d), arguments(s, argv, shift(style)));
    assert(was + x + y =~= was + (x + y));
    let n = noted(h.log, kind);
    assert(n + Seq::<Seq<Datum>>::empty() =~= n);
}

} // verus!
