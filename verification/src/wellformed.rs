//! What holds of every translated program: its facts are about statements that have a
//! place, and its virtual calls pass their receivers.
use vstd::prelude::*;

use crate::cir::{
    Address, BasicBlock, CallObject, CallStyle, CirProgram, Exp, FunctionData, Statement,
    Terminator, VariableRef, VirtualMethodTable,
};
use crate::codes::initial;
use crate::ctadl;
use crate::ir::{self, Name, Program};
use crate::laws;
use crate::ledger::{self, Entry, Kind};
use crate::lower::{self, Pen, Rhs};
use crate::rows::{self, Datum};
use crate::text::decimal;

verus! {

/// The rows of the relation begin with a statement.
pub open spec fn about_statements(kind: Kind) -> bool {
    match kind {
        Kind::Alloc
        | Kind::ConstAssign
        | Kind::Mov
        | Kind::LoadField
        | Kind::StoreField
        | Kind::LoadStatic
        | Kind::StoreStatic
        | Kind::LoadIndexConst
        | Kind::StoreIndexConst
        | Kind::DirectCall
        | Kind::VirtualCall
        | Kind::ActualArg
        | Kind::BindRet => true,
        _ => false,
    }
}

/// Statement `s` has a place in some body.
pub open spec fn placed(log: Seq<Entry>, s: Datum) -> bool {
    exists|i: int| 0 <= i < log.len() && (#[trigger] log[i]).kind == Kind::InProc
        && log[i].row[0] == s
}

/// The operand `d` is argument zero of `s`.
pub open spec fn passed(log: Seq<Entry>, s: Datum, d: Datum) -> bool {
    exists|i: int|
        0 <= i < log.len() && (#[trigger] log[i]).kind == Kind::ActualArg && log[i].row
            == seq![s, Datum::Num(0), d]
}

/// A note that the other notes bear out.
pub open spec fn borne_out(log: Seq<Entry>, x: Entry) -> bool {
    &&& about_statements(x.kind) ==> placed(log, x.row[0])
    &&& x.kind == Kind::VirtualCall ==> passed(log, x.row[0], x.row[1])
}

/// Every note is borne out.
pub open spec fn grounded(log: Seq<Entry>) -> bool {
    forall|i: int| 0 <= i < log.len() ==> borne_out(log, #[trigger] log[i])
}

/// The writing from `a` to `b` takes nothing back, and leaves grounded notes grounded.
pub open spec fn sound(a: Pen, b: Pen) -> bool {
    &&& initial(a.log, b.log)
    &&& grounded(a.log) ==> grounded(b.log)
}

proof fn lemma_stays(a: Seq<Entry>, b: Seq<Entry>)
    requires
        initial(a, b),
    ensures
        forall|s: Datum| #[trigger] placed(a, s) ==> placed(b, s),
        forall|s: Datum, d: Datum| #[trigger] passed(a, s, d) ==> passed(b, s, d),
{
    assert forall|s: Datum| #[trigger] placed(a, s) implies placed(b, s) by {
        let i = choose|i: int|
            0 <= i < a.len() && (#[trigger] a[i]).kind == Kind::InProc && a[i].row[0] == s;
        assert(b[i] == a[i]);
    }
    assert forall|s: Datum, d: Datum| #[trigger] passed(a, s, d) implies passed(b, s, d) by {
        let i = choose|i: int|
            0 <= i < a.len() && (#[trigger] a[i]).kind == Kind::ActualArg && a[i].row
                == seq![s, Datum::Num(0), d];
        assert(b[i] == a[i]);
    }
}

proof fn lemma_note(p: Pen, kind: Kind, row: Seq<Datum>)
    requires
        borne_out(p.log, Entry { kind, row }),
    ensures
        sound(p, p.note(kind, row)),
{
    let q = p.note(kind, row);
    lemma_stays(p.log, q.log);
    if grounded(p.log) {
        assert forall|i: int| 0 <= i < q.log.len()
            implies borne_out(q.log, #[trigger] q.log[i]) by {
            if i < p.log.len() {
                assert(q.log[i] == p.log[i]);
                assert(borne_out(p.log, p.log[i]));
            }
        }
    }
}

proof fn lemma_record(p: Pen, s: Name)
    ensures
        sound(p, p.record(s)),
        placed(p.record(s).log, Datum::Text(s)),
{
    let row = rows::placed_row(s, p.proc, p.line as usize);
    lemma_note(p, Kind::InProc, row);
    let log = p.record(s).log;
    assert(log[log.len() - 1].row[0] == Datum::Text(s));
}

proof fn lemma_chain(a: Pen, b: Pen, c: Pen)
    requires
        sound(a, b),
        sound(b, c),
    ensures
        sound(a, c),
{
    assert forall|i: int| 0 <= i < a.log.len() implies #[trigger] c.log[i] == a.log[i] by {
        assert(b.log[i] == a.log[i]);
    }
}

proof fn lemma_walk(p: Pen, from: Name, offsets: Seq<i64>)
    ensures
        sound(p, p.walk(from, offsets).0),
    decreases offsets.len(),
{
    if offsets.len() > 0 {
        lemma_walk(p, from, offsets.drop_last());
        let (a, cur) = p.walk(from, offsets.drop_last());
        let b = a.temp();
        lemma_record(a, a.temp_label());
        lemma_chain(p, a, b);
        let row = rows::four_row(
            a.temp_label(),
            a.temp_var(),
            cur,
            crate::text::signed_decimal(offsets.last() as int),
        );
        lemma_note(b, Kind::LoadIndexConst, row);
        lemma_chain(p, b, b.note(Kind::LoadIndexConst, row));
    }
}

proof fn lemma_rhs(p: Pen, f: FunctionData, e: Exp)
    ensures
        sound(p, p.rhs(f, e).0),
{
    match e {
        Exp::AccessPath(a) => {
            lemma_walk(p, lower::var_name(f, p.scope, a.variable_ref), a.offsets@);
        },
        Exp::ObjectRef(CallObject::FunctionPtr(name)) => {
            lemma_note(p, Kind::Taken, rows::one_row(name@));
        },
        _ => {},
    }
}

proof fn lemma_settle(p: Pen, r: Rhs)
    ensures
        sound(p, p.settle(r).0),
{
    let (s, t) = (p.temp_label(), p.temp_var());
    let b = p.temp();
    lemma_record(p, s);
    match r {
        Rhs::Var(v) => {},
        Rhs::Const(c) => {
            lemma_note(b, Kind::ConstAssign, rows::three_row(s, t, c));
        },
        Rhs::Object(ty) => {
            let site = "l:"@ + s;
            let c = b.note(Kind::Alloc, rows::three_row(s, t, site));
            lemma_note(b, Kind::Alloc, rows::three_row(s, t, site));
            lemma_note(c, Kind::AllocType, rows::two_row(site, ty));
            lemma_chain(p, b, c);
            lemma_chain(p, c, c.note(Kind::AllocType, rows::two_row(site, ty)));
        },
    }
}

proof fn lemma_exp(p: Pen, f: FunctionData, e: Exp)
    ensures
        sound(p, p.exp_var(f, e).0),
{
    lemma_rhs(p, f, e);
    let (a, r) = p.rhs(f, e);
    lemma_settle(a, r);
    lemma_chain(p, a, a.settle(r).0);
}

proof fn lemma_all_rhs(p: Pen, f: FunctionData, es: Seq<Exp>)
    ensures
        sound(p, p.all_rhs(f, es).0),
    decreases es.len(),
{
    if es.len() > 0 {
        lemma_all_rhs(p, f, es.drop_last());
        let a = p.all_rhs(f, es.drop_last()).0;
        lemma_rhs(a, f, es.last());
        lemma_chain(p, a, a.rhs(f, es.last()).0);
    }
}

proof fn lemma_all_vars(p: Pen, f: FunctionData, es: Seq<Exp>)
    ensures
        sound(p, p.all_vars(f, es).0),
    decreases es.len(),
{
    if es.len() > 0 {
        lemma_all_vars(p, f, es.drop_last());
        let a = p.all_vars(f, es.drop_last()).0;
        lemma_exp(a, f, es.last());
        lemma_chain(p, a, a.exp_var(f, es.last()).0);
    }
}

/// The statement at hand has a place.
spec fn at_place(p: Pen) -> bool {
    placed(p.log, Datum::Text(p.base))
}

proof fn lemma_assign_all(p: Pen, to: Name, rs: Seq<Rhs>)
    requires
        at_place(p),
    ensures
        sound(p, p.assign_all(to, rs)),
        p.assign_all(to, rs).base == p.base,
    decreases rs.len(),
{
    if rs.len() > 0 {
        lemma_assign_all(p, to, rs.drop_last());
        let a = p.assign_all(to, rs.drop_last());
        lemma_stays(p.log, a.log);
        let s = p.base;
        match rs.last() {
            Rhs::Var(v) => {
                lemma_note(a, Kind::Mov, rows::three_row(s, to, v));
            },
            Rhs::Const(c) => {
                lemma_note(a, Kind::ConstAssign, rows::three_row(s, to, c));
            },
            Rhs::Object(ty) => {
                let site = "l:"@ + s + ":"@ + decimal((rs.len() - 1) as nat);
                let b = a.note(Kind::Alloc, rows::three_row(s, to, site));
                lemma_note(a, Kind::Alloc, rows::three_row(s, to, site));
                lemma_note(b, Kind::AllocType, rows::two_row(site, ty));
                lemma_chain(a, b, b.note(Kind::AllocType, rows::two_row(site, ty)));
            },
        }
        lemma_chain(p, a, p.assign_all(to, rs));
    }
}

proof fn lemma_join_all(p: Pen, f: FunctionData, to: Name, vs: Seq<VariableRef>)
    requires
        at_place(p),
    ensures
        sound(p, p.join_all(f, to, vs)),
    decreases vs.len(),
{
    if vs.len() > 0 {
        lemma_join_all(p, f, to, vs.drop_last());
        let a = p.join_all(f, to, vs.drop_last());
        lemma_stays(p.log, a.log);
        let row = rows::three_row(p.base, to, lower::var_name(f, p.scope, vs.last()));
        lemma_note(a, Kind::Mov, row);
        lemma_chain(p, a, a.note(Kind::Mov, row));
    }
}

proof fn lemma_pass_all(p: Pen, args: Seq<Name>, shift: nat)
    requires
        at_place(p),
    ensures
        sound(p, p.pass_all(args, shift)),
        p.pass_all(args, shift).base == p.base,
    decreases args.len(),
{
    if args.len() > 0 {
        lemma_pass_all(p, args.drop_last(), shift);
        let a = p.pass_all(args.drop_last(), shift);
        lemma_stays(p.log, a.log);
        let row = rows::indexed_row(p.base, (args.len() - 1 + shift) as usize, args.last());
        lemma_note(a, Kind::ActualArg, row);
        lemma_chain(p, a, a.note(Kind::ActualArg, row));
    }
}

proof fn lemma_call_all(p: Pen, targets: Seq<String>)
    requires
        at_place(p),
    ensures
        sound(p, p.call_all(targets)),
    decreases targets.len(),
{
    if targets.len() > 0 {
        lemma_call_all(p, targets.drop_last());
        let a = p.call_all(targets.drop_last());
        lemma_stays(p.log, a.log);
        let row = rows::two_row(p.base, targets.last()@);
        lemma_note(a, Kind::DirectCall, row);
        lemma_chain(p, a, a.note(Kind::DirectCall, row));
    }
}

/// A virtual call and its dispatch key.
proof fn lemma_dispatched(p: Pen, d: Name, sig: Name, kind: Kind, key: Seq<Datum>)
    requires
        at_place(p),
        passed(p.log, Datum::Text(p.base), Datum::Text(d)),
        !about_statements(kind),
    ensures
        sound(p, p.note(Kind::VirtualCall, rows::three_row(p.base, d, sig)).note(kind, key)),
{
    let row = rows::three_row(p.base, d, sig);
    lemma_note(p, Kind::VirtualCall, row);
    let a = p.note(Kind::VirtualCall, row);
    lemma_note(a, kind, key);
    lemma_chain(p, a, a.note(kind, key));
}

proof fn lemma_resolve(p: Pen, style: CallStyle, d: Name)
    requires
        at_place(p),
        style is JavaCall || style is LuaCall || style is FuncPtrCall ==> passed(
            p.log,
            Datum::Text(p.base),
            Datum::Text(d),
        ),
    ensures
        sound(p, p.resolve(style, d)),
{
    match style {
        CallStyle::DirectCall { targets } => {
            lemma_call_all(p, targets@);
        },
        CallStyle::JavaCall { receiver, cls, simple_name, descriptor } => {
            lemma_dispatched(
                p,
                d,
                lower::class_sig(cls@, simple_name@, descriptor@),
                Kind::ClassSite,
                rows::three_row(cls@, simple_name@, descriptor@),
            );
        },
        CallStyle::LuaCall { receiver, method } => {
            lemma_dispatched(
                p,
                d,
                lower::lua_sig(method@),
                Kind::LuaSite,
                rows::one_row(method@),
            );
        },
        CallStyle::FuncPtrCall { callee, signature } => {
            let sig = match signature {
                Some(sig) => sig@,
                None => Seq::empty(),
            };
            lemma_dispatched(
                p,
                d,
                lower::pointer_sig(sig),
                Kind::PointerSite,
                rows::one_row(sig),
            );
        },
        CallStyle::Unknown => {},
    }
}

proof fn lemma_operand(p: Pen, f: FunctionData, style: CallStyle)
    ensures
        sound(p, p.operand(f, style).0),
{
    if let CallStyle::FuncPtrCall { callee, signature } = style {
        lemma_walk(p, lower::var_name(f, p.scope, callee.variable_ref), callee.offsets@);
    }
}

proof fn lemma_call(
    p: Pen,
    f: FunctionData,
    style: CallStyle,
    rets: Seq<VariableRef>,
    args: Seq<Exp>,
)
    ensures
        sound(p, p.call(f, style, rets, args)),
{
    let (a, argv) = p.all_vars(f, args);
    lemma_all_vars(p, f, args);
    p.lemma_vars_keep(f, args);
    let (b, od) = a.operand(f, style);
    lemma_operand(a, f, style);
    a.lemma_operand_keeps(f, style);
    lemma_chain(p, a, b);
    let s = p.base;
    let c = b.site();
    lemma_record(b, s);
    lemma_chain(p, b, c);
    let d: Name = match od {
        Some(d) => d,
        None => Seq::empty(),
    };
    let slot = rows::indexed_row(s, 0, d);
    let e = match od {
        Some(d) => c.note(Kind::ActualArg, rows::indexed_row(s, 0, d)),
        None => c,
    };
    if od is Some {
        lemma_note(c, Kind::ActualArg, slot);
        lemma_chain(p, c, e);
        assert(passed(e.log, Datum::Text(s), Datum::Text(d))) by {
            assert(e.log[e.log.len() - 1].row =~= seq![
                Datum::Text(s),
                Datum::Num(0),
                Datum::Text(d),
            ]);
        }
    }
    lemma_stays(c.log, e.log);
    let shift: nat = if style is JavaCall {
        1
    } else {
        0
    };
    let g = e.pass_all(argv, shift);
    lemma_pass_all(e, argv, shift);
    lemma_chain(p, e, g);
    lemma_stays(e.log, g.log);
    let bound = rows::two_row(s, lower::var_name(f, p.scope, rets[0]));
    let h = if rets.len() > 0 {
        g.note(Kind::BindRet, bound)
    } else {
        g
    };
    if rets.len() > 0 {
        lemma_note(g, Kind::BindRet, bound);
        lemma_chain(p, g, h);
    }
    lemma_stays(g.log, h.log);
    lemma_resolve(h, style, d);
    lemma_chain(p, h, h.resolve(style, d));
}

proof fn lemma_load(p: Pen, f: FunctionData, to: Name, source: Address, field: Name)
    ensures
        sound(p, p.load(f, to, source, field)),
{
    if lower::is_global(source) {
        let a = p.site();
        lemma_record(p, p.base);
        let row = rows::four_row(p.base, to, "$globals"@, field);
        lemma_note(a, Kind::LoadStatic, row);
        lemma_chain(p, a, a.note(Kind::LoadStatic, row));
    } else {
        let from = lower::var_name(f, p.scope, source.variable_ref);
        lemma_walk(p, from, source.offsets@);
        p.lemma_walk_keeps(from, source.offsets@);
        let (a, base) = p.address(f, source);
        let b = a.site();
        lemma_record(a, p.base);
        lemma_chain(p, a, b);
        let row = rows::four_row(p.base, to, base, field);
        lemma_note(b, Kind::LoadField, row);
        lemma_chain(p, b, b.note(Kind::LoadField, row));
    }
}

proof fn lemma_store(p: Pen, f: FunctionData, dest: Address, field: Name, value: Exp)
    ensures
        sound(p, p.store(f, dest, field, value)),
{
    let (a, from) = p.exp_var(f, value);
    lemma_exp(p, f, value);
    p.lemma_exp_keeps(f, value);
    let s = p.base;
    let start = lower::var_name(f, p.scope, dest.variable_ref);
    if field.len() == 0 {
        if dest.offsets@.len() > 0 {
            let offs = dest.offsets@.drop_last();
            lemma_walk(a, start, offs);
            a.lemma_walk_keeps(start, offs);
            let (b, base) = a.walk(start, offs);
            lemma_chain(p, a, b);
            let c = b.site();
            lemma_record(b, s);
            lemma_chain(p, b, c);
            let row = rows::four_row(
                s,
                base,
                crate::text::signed_decimal(dest.offsets@.last() as int),
                from,
            );
            lemma_note(c, Kind::StoreIndexConst, row);
            lemma_chain(p, c, c.note(Kind::StoreIndexConst, row));
        }
    } else if lower::is_global(dest) {
        let b = a.site();
        lemma_record(a, s);
        lemma_chain(p, a, b);
        let row = rows::four_row(s, "$globals"@, field, from);
        lemma_note(b, Kind::StoreStatic, row);
        lemma_chain(p, b, b.note(Kind::StoreStatic, row));
    } else {
        lemma_walk(a, start, dest.offsets@);
        a.lemma_walk_keeps(start, dest.offsets@);
        let (b, base) = a.address(f, dest);
        lemma_chain(p, a, b);
        let c = b.site();
        lemma_record(b, s);
        lemma_chain(p, b, c);
        let row = rows::four_row(s, base, field, from);
        lemma_note(c, Kind::StoreField, row);
        lemma_chain(p, c, c.note(Kind::StoreField, row));
    }
}

proof fn lemma_statement(p: Pen, f: FunctionData, st: Statement)
    ensures
        sound(p, p.statement(f, st)),
{
    match st {
        Statement::Assign { dest, sources } => {
            let (a, rs) = p.all_rhs(f, sources@);
            lemma_all_rhs(p, f, sources@);
            p.lemma_all_rhs_keep(f, sources@);
            let b = a.site();
            lemma_record(a, a.base);
            lemma_chain(p, a, b);
            let to = lower::var_name(f, p.scope, dest);
            lemma_assign_all(b, to, rs);
            lemma_chain(p, b, b.assign_all(to, rs));
        },
        Statement::Load { dest, source, field } => {
            lemma_load(p, f, lower::var_name(f, p.scope, dest), source, field@);
        },
        Statement::Store { address, field, value } => {
            lemma_store(p, f, address, field@, value);
        },
        Statement::CallAssign { style, rets, args } => {
            lemma_call(p, f, style, rets@, args@);
        },
        Statement::Phi { dest, operands } => {
            let b = p.site();
            lemma_record(p, p.base);
            let to = lower::var_name(f, p.scope, dest);
            lemma_join_all(b, f, to, operands@);
            lemma_chain(p, b, b.join_all(f, to, operands@));
        },
        _ => {},
    }
}

proof fn lemma_statements(p: Pen, f: FunctionData, b: nat, list: Seq<Statement>)
    ensures
        sound(p, p.statements(f, b, list)),
    decreases list.len(),
{
    if list.len() > 0 {
        lemma_statements(p, f, b, list.drop_last());
        let a = p.statements(f, b, list.drop_last());
        let label = p.scope + "#"@ + decimal(b) + "."@ + decimal((list.len() - 1) as nat);
        let c = a.begin(label);
        assert(sound(a, c));
        lemma_chain(p, a, c);
        lemma_statement(c, f, list.last());
        lemma_chain(p, c, c.statement(f, list.last()));
    }
}

proof fn lemma_block(p: Pen, f: FunctionData, b: nat, block: BasicBlock)
    ensures
        sound(p, p.block(f, b, block)),
{
    let a = p.statements(f, b, block.statements@);
    lemma_statements(p, f, b, block.statements@);
    if let Some(Terminator::Return { args }) = block.terminator {
        let c = a.begin(p.scope + "#"@ + decimal(b) + ".ret"@);
        assert(sound(a, c));
        lemma_chain(p, a, c);
        if args@.len() > 0 {
            let (d, v) = c.exp_var(f, args@[0]);
            lemma_exp(c, f, args@[0]);
            lemma_chain(p, c, d);
            lemma_note(d, Kind::Ret, rows::two_row(p.proc, v));
            lemma_chain(p, d, d.note(Kind::Ret, rows::two_row(p.proc, v)));
        }
    }
}

proof fn lemma_blocks(p: Pen, f: FunctionData, list: Seq<BasicBlock>)
    ensures
        sound(p, p.blocks(f, list)),
    decreases list.len(),
{
    if list.len() > 0 {
        lemma_blocks(p, f, list.drop_last());
        let a = p.blocks(f, list.drop_last());
        lemma_block(a, f, (list.len() - 1) as nat, list.last());
        lemma_chain(p, a, a.block(f, (list.len() - 1) as nat, list.last()));
    }
}

proof fn lemma_formals(p: Pen, n: nat)
    ensures
        sound(p, p.formals(n)),
    decreases n,
{
    if n > 0 {
        let i = (n - 1) as nat;
        lemma_formals(p, i);
        let a = p.formals(i);
        let row = rows::indexed_row(p.proc, i as usize, lower::param_name(p.scope, i));
        lemma_note(a, Kind::Formal, row);
        lemma_chain(p, a, a.note(Kind::Formal, row));
    }
}

proof fn lemma_function(p: Pen, f: FunctionData, scope: Name)
    ensures
        sound(p, p.function(f, scope)),
{
    let q = Pen { proc: f.name@, scope, line: 0, ..p };
    assert(sound(p, q));
    let a = q.note(Kind::Procedure, rows::one_row(f.name@));
    lemma_note(q, Kind::Procedure, rows::one_row(f.name@));
    lemma_chain(p, q, a);
    let b = match lower::declaring_type(f.name@) {
        Some(ty) => a.note(Kind::ProcType, rows::two_row(f.name@, ty)),
        None => a,
    };
    if let Some(ty) = lower::declaring_type(f.name@) {
        lemma_note(a, Kind::ProcType, rows::two_row(f.name@, ty));
        lemma_chain(p, a, b);
    }
    let c = b.formals(f.params as nat);
    lemma_formals(b, f.params as nat);
    lemma_chain(p, b, c);
    lemma_blocks(c, f, f.blocks@);
    lemma_chain(p, c, c.blocks(f, f.blocks@));
}

proof fn lemma_code(p: Pen, compact: bool, tag: nat, fs: Seq<FunctionData>)
    ensures
        sound(p, ctadl::code(p, compact, tag, fs)),
    decreases fs.len(),
{
    if fs.len() > 0 {
        lemma_code(p, compact, tag, fs.drop_last());
        let a = ctadl::code(p, compact, tag, fs.drop_last());
        let scope = ctadl::scope_of(fs.last(), compact, tag, (fs.len() - 1) as nat);
        lemma_function(a, fs.last(), scope);
        lemma_chain(p, a, a.function(fs.last(), scope));
    }
}

/// A note that is not about a statement leaves grounded notes grounded.
proof fn lemma_aside(log: Seq<Entry>, kind: Kind, row: Seq<Datum>)
    requires
        grounded(log),
        !about_statements(kind),
    ensures
        grounded(ctadl::noting(log, kind, row)),
{
    lemma_note(ctadl::idle(log), kind, row);
}

proof fn lemma_declaring(log: Seq<Entry>, ms: Seq<(String, String, String, String)>)
    requires
        grounded(log),
    ensures
        grounded(ctadl::declaring(log, ms)),
    decreases ms.len(),
{
    if ms.len() > 0 {
        lemma_declaring(log, ms.drop_last());
        let m = ms.last();
        lemma_aside(
            ctadl::declaring(log, ms.drop_last()),
            Kind::Declares,
            rows::four_row(m.0@, m.1@, m.2@, m.3@),
        );
    }
}

proof fn lemma_tabling(log: Seq<Entry>, ms: Seq<(String, String, String)>)
    requires
        grounded(log),
    ensures
        grounded(ctadl::tabling(log, ms)),
    decreases ms.len(),
{
    if ms.len() > 0 {
        lemma_tabling(log, ms.drop_last());
        let m = ms.last();
        lemma_aside(
            ctadl::tabling(log, ms.drop_last()),
            Kind::Declares,
            rows::four_row(m.0@, m.1@, Seq::empty(), m.2@),
        );
    }
}

proof fn lemma_extending(log: Seq<Entry>, sub: Name, sups: Seq<String>)
    requires
        grounded(log),
    ensures
        grounded(ctadl::extending(log, sub, sups)),
    decreases sups.len(),
{
    if sups.len() > 0 {
        lemma_extending(log, sub, sups.drop_last());
        lemma_aside(
            ctadl::extending(log, sub, sups.drop_last()),
            Kind::Extends,
            rows::two_row(sub, sups.last()@),
        );
    }
}

proof fn lemma_inheriting(log: Seq<Entry>, hs: Seq<(String, Vec<String>)>)
    requires
        grounded(log),
    ensures
        grounded(ctadl::inheriting(log, hs)),
    decreases hs.len(),
{
    if hs.len() > 0 {
        lemma_inheriting(log, hs.drop_last());
        lemma_extending(ctadl::inheriting(log, hs.drop_last()), hs.last().0@, hs.last().1@);
    }
}

/// A translator starts with nothing to bear out, and every import leaves its notes
/// grounded: each fact is about a statement with a place, and each virtual call passes
/// what it dispatches on as argument zero.
pub proof fn law_imports_are_grounded(
    log: Seq<Entry>,
    compact: bool,
    tag: nat,
    cir: CirProgram,
    vmt: VirtualMethodTable,
)
    requires
        grounded(log),
    ensures
        grounded(Seq::<Entry>::empty()),
        grounded(ctadl::imported(log, compact, tag, cir, vmt)),
{
    match vmt {
        VirtualMethodTable::Java { methods, hierarchy } => {
            lemma_declaring(log, methods@);
            lemma_inheriting(ctadl::declaring(log, methods@), hierarchy@);
        },
        VirtualMethodTable::Lua { functions, hierarchy } => {
            lemma_tabling(log, functions@);
            lemma_inheriting(ctadl::tabling(log, functions@), hierarchy@);
        },
        _ => {},
    }
    lemma_code(ctadl::idle(ctadl::classes(log, vmt)), compact, tag, cir.functions@);
}

/// The program of grounded notes passes the receiver of every virtual call,
/// and every virtual call of it stands in some body.
pub proof fn law_translated_calls_pass_receivers(prog: Program, log: Seq<Entry>, fallback: bool)
    requires
        grounded(log),
        ctadl::translates(prog, log, fallback),
    ensures
        laws::passes_receivers(prog@),
        forall|s: Name, r: Name, g: Name| #[trigger]
            prog@.virtual_call.contains((s, r, g)) ==> prog@.located(s),
{
    let e = prog@;
    assert forall|s: Name, r: Name, g: Name| #[trigger]
        e.virtual_call.contains((s, r, g)) implies e.actual_arg.contains((s, 0usize, r))
        && e.located(s) by {
        let v = prog.virtual_call@;
        let i = choose|i: int| 0 <= i < v.len() && ir::three_view(#[trigger] v[i]) == (s, r, g);
        let vr = rows::three_rows(v);
        assert(vr[i] == rows::three_row(s, r, g));
        assert(vr.contains(vr[i]));
        let x = Entry { kind: Kind::VirtualCall, row: vr[i] };
        assert(log.contains(x));
        let k = choose|k: int| 0 <= k < log.len() && log[k] == x;
        assert(borne_out(log, log[k]));
        let (ds, dr) = (Datum::Text(s), Datum::Text(r));
        assert(x.row[0] == ds && x.row[1] == dr);
        // The argument.
        let a = choose|a: int|
            0 <= a < log.len() && (#[trigger] log[a]).kind == Kind::ActualArg && log[a].row == seq![
                ds,
                Datum::Num(0),
                dr,
            ];
        let row = rows::indexed_row(s, 0, r);
        assert(log[a] == (Entry { kind: Kind::ActualArg, row }));
        assert(log.contains(Entry { kind: Kind::ActualArg, row }));
        assert(ledger::relation(log, Kind::ActualArg).contains(row));
        let ar = rows::indexed_rows(prog.actual_arg@);
        assert(ar.contains(row));
        let j = choose|j: int| 0 <= j < ar.len() && ar[j] == row;
        let t = prog.actual_arg@[j];
        assert(ar[j][0] == Datum::Text(t.0@) && ar[j][1] == Datum::Num(t.1) && ar[j][2]
            == Datum::Text(t.2@));
        assert(ir::indexed_view(t) == (s, 0usize, r));
        assert(e.actual_arg.contains((s, 0usize, r)));
        // The place.
        let q = choose|q: int|
            0 <= q < log.len() && (#[trigger] log[q]).kind == Kind::InProc && log[q].row[0] == ds;
        let place = log[q].row;
        assert(log[q] == (Entry { kind: Kind::InProc, row: place }));
        ledger::lemma_noted(log, Kind::InProc, place);
        let pr = rows::placed_rows(prog.in_proc@);
        assert(pr.contains(place));
        let z = choose|z: int| 0 <= z < pr.len() && pr[z] == place;
        let u = prog.in_proc@[z];
        assert(pr[z][0] == Datum::Text(u.0@));
        assert(ir::placed_view(u) == (s, u.1@, u.2));
        assert(e.in_proc.contains((s, u.1@, u.2)));
        assert(e.stands_in(s, u.1@));
    }
}

} // verus!
