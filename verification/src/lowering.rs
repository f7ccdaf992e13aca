//! What a function becomes: every statement of every block is lowered under a label of
//! its own, every return is noted, and nothing else is.
use vstd::prelude::*;

use crate::cir::{
    Address, BasicBlock, CallObject, CallStyle, Exp, FunctionData, Statement, Terminator, Variable,
    VariableRef,
};
use crate::codes::initial;
use crate::ir::Name;
use crate::ledger::{noted, Entry, Kind};
use crate::lower::{
    class_sig, constant, declaring_type, is_global, lua_sig, object_type, param_name, pointer_sig,
    pointer_type, var_name, Pen, Rhs,
};
use crate::rows::{self, Datum};
use crate::text::{decimal, signed_decimal};

verus! {

// ---------------------------------------------------------------------------
// Names
// ---------------------------------------------------------------------------

/// What things are called. A parameter is `par` and its position, a local has the name
/// the function lists for it, or `local` and its position where it lists none; a version
/// follows a hash, and what qualifies the name follows an at sign.
pub proof fn law_variables_are_named(f: FunctionData, scope: Name, i: usize, n: usize)
    ensures
        var_name(f, scope, (VariableRef { variable: Variable::Param(i), version: None }))
            == "par"@ + decimal(i as nat) + "@"@ + scope,
        var_name(f, scope, (VariableRef { variable: Variable::Param(i), version: Some(n) }))
            == "par"@ + decimal(i as nat) + "#"@ + decimal(n as nat) + "@"@ + scope,
        i < f.locals@.len() ==> var_name(
            f,
            scope,
            (VariableRef { variable: Variable::Local(i), version: None }),
        ) == f.locals@[i as int]@ + "@"@ + scope,
        i < f.locals@.len() ==> var_name(
            f,
            scope,
            (VariableRef { variable: Variable::Local(i), version: Some(n) }),
        ) == f.locals@[i as int]@ + "#"@ + decimal(n as nat) + "@"@ + scope,
        i >= f.locals@.len() ==> var_name(
            f,
            scope,
            (VariableRef { variable: Variable::Local(i), version: None }),
        ) == "local"@ + decimal(i as nat) + "@"@ + scope,
        var_name(f, scope, (VariableRef { variable: Variable::GlobalHeap, version: None }))
            == "$heap"@ + "@"@ + scope,
        param_name(scope, i as nat) == var_name(
            f,
            scope,
            (VariableRef { variable: Variable::Param(i), version: None }),
        ),
{
}

/// What types, constants and signatures are called.
pub proof fn law_types_and_signatures_are_named(a: Name, b: Name, c: Name, s: String, w: Vec<u8>)
    ensures
        object_type(CallObject::JavaObject(s)) == s@,
        object_type(CallObject::LuaClass(s)) == s@,
        object_type(CallObject::FunctionPtr(s)) == "$fn:"@ + s@,
        pointer_type(a) == "$fn:"@ + a,
        constant(Exp::Str(s)) == s@,
        constant(Exp::Bytes(w)) == "$bytes:"@ + decimal(w@.len()),
        class_sig(a, b, c) == a + "->"@ + b + c,
        lua_sig(a) == "lua->"@ + a,
        a.len() == 0 ==> pointer_sig(a) == "$fnptr"@,
        a.len() > 0 ==> pointer_sig(a) == "$fnptr("@ + a + ")"@,
{
}

/// A qualified name belongs to the class before its first arrow, and to none without one.
pub proof fn law_declaring_classes(name: Name, i: int)
    ensures
        0 <= i < name.len() - 1 && name[i] == '-' && name[i + 1] == '>' && (forall|j: int|
            0 <= j < i ==> !(#[trigger] name[j] == '-' && name[j + 1] == '>'))
            ==> declaring_type(name) == Some(name.take(i)),
        (forall|j: int|
            0 <= j < name.len() - 1 ==> !(#[trigger] name[j] == '-' && name[j + 1] == '>'))
            ==> declaring_type(name) is None,
{
    if 0 <= i < name.len() - 1 && name[i] == '-' && name[i + 1] == '>' && (forall|j: int|
        0 <= j < i ==> !(#[trigger] name[j] == '-' && name[j + 1] == '>')) {
        assert forall|j: int| 0 <= j < i implies !crate::lower::arrow_at(name, j) by {
            let x = name[j];
        }
        assert(crate::lower::first_arrow(name, i));
        let k = choose|k: int| crate::lower::first_arrow(name, k);
        assert(crate::lower::first_arrow(name, k));
        if k < i {
            assert(!crate::lower::arrow_at(name, k));
        }
        if i < k {
            assert(!crate::lower::arrow_at(name, i));
        }
    }
    if forall|j: int|
        0 <= j < name.len() - 1 ==> !(#[trigger] name[j] == '-' && name[j + 1] == '>') {
        if exists|k: int| crate::lower::first_arrow(name, k) {
            let k = choose|k: int| crate::lower::first_arrow(name, k);
            let x = name[k];
            assert(!(name[k] == '-' && name[k + 1] == '>'));
        }
    }
}

// ---------------------------------------------------------------------------
// What writing a statement leaves behind
// ---------------------------------------------------------------------------

/// A relation that no statement writes.
pub open spec fn outer(kind: Kind) -> bool {
    match kind {
        Kind::Procedure
        | Kind::ProcType
        | Kind::Formal
        | Kind::Ret
        | Kind::Declares
        | Kind::Extends => true,
        _ => false,
    }
}

/// The row places a label on a line of the procedure.
pub open spec fn in_line(row: Seq<Datum>, proc: Name, n: int) -> bool {
    row.len() == 3 && row[1] == Datum::Text(proc) && row[2] == Datum::Num(n as usize)
}

/// The pen goes on in the same statement: what it writes stays, is of no outer relation,
/// and is placed line after line.
pub open spec fn goes_on(a: Pen, b: Pen) -> bool {
    let (was, now) = (noted(a.log, Kind::InProc), noted(b.log, Kind::InProc));
    &&& a.proc == b.proc && a.scope == b.scope
    &&& initial(a.log, b.log)
    &&& forall|i: int| a.log.len() <= i < b.log.len() ==> !outer((#[trigger] b.log[i]).kind)
    &&& a.line <= b.line
    &&& initial(was, now)
    &&& now.len() == was.len() + (b.line - a.line)
    &&& forall|j: int|
        was.len() <= j < now.len() ==> in_line(#[trigger] now[j], a.proc, a.line + j - was.len())
}

proof fn lemma_same(a: Pen)
    ensures
        goes_on(a, a),
{
}

proof fn lemma_chain(a: Pen, b: Pen, c: Pen)
    requires
        goes_on(a, b),
        goes_on(b, c),
    ensures
        goes_on(a, c),
{
    assert forall|i: int| 0 <= i < a.log.len() implies #[trigger] c.log[i] == a.log[i] by {
        assert(b.log[i] == a.log[i]);
    }
    assert forall|i: int| a.log.len() <= i < c.log.len() implies !outer(
        (#[trigger] c.log[i]).kind,
    ) by {
        if i < b.log.len() {
            assert(c.log[i] == b.log[i]);
        }
    }
    let (x, y, z) = (
        noted(a.log, Kind::InProc),
        noted(b.log, Kind::InProc),
        noted(c.log, Kind::InProc),
    );
    assert forall|j: int| 0 <= j < x.len() implies #[trigger] z[j] == x[j] by {
        assert(y[j] == x[j]);
    }
    assert forall|j: int| x.len() <= j < z.len() implies in_line(
        #[trigger] z[j],
        a.proc,
        a.line + j - x.len(),
    ) by {
        if j < y.len() {
            assert(z[j] == y[j]);
        }
    }
}

proof fn lemma_note(a: Pen, kind: Kind, row: Seq<Datum>)
    requires
        !outer(kind),
        kind != Kind::InProc,
    ensures
        goes_on(a, a.note(kind, row)),
{
    let b = a.note(kind, row);
    assert(b.log.drop_last() =~= a.log);
    assert(noted(b.log, Kind::InProc) == noted(a.log, Kind::InProc));
}

proof fn lemma_record(a: Pen, s: Name)
    ensures
        goes_on(a, a.record(s)),
        a.record(s).base == a.base,
        a.record(s).sub == a.sub,
{
    let b = a.record(s);
    assert(b.log.drop_last() =~= a.log);
    let row = rows::placed_row(s, a.proc, a.line as usize);
    assert(noted(b.log, Kind::InProc) == noted(a.log, Kind::InProc).push(row));
}

proof fn lemma_temp(a: Pen)
    ensures
        goes_on(a, a.temp()),
{
    lemma_record(a, a.temp_label());
    let (b, c) = (a.record(a.temp_label()), a.temp());
    assert(b.log == c.log && b.line == c.line && b.proc == c.proc && b.scope == c.scope);
}

proof fn lemma_walk(a: Pen, from: Name, offsets: Seq<i64>)
    ensures
        goes_on(a, a.walk(from, offsets).0),
        a.walk(from, offsets).0.base == a.base,
        a.walk(from, offsets).0.sub == a.sub + offsets.len(),
        a.walk(from, offsets).1 == (if offsets.len() == 0 {
            from
        } else {
            "$t"@ + decimal((a.sub + offsets.len() - 1) as nat) + "@"@ + a.base
        }),
    decreases offsets.len(),
{
    if offsets.len() == 0 {
        lemma_same(a);
    } else {
        let few = offsets.drop_last();
        lemma_walk(a, from, few);
        let (b, cur) = a.walk(from, few);
        lemma_temp(b);
        let row = rows::four_row(
            b.temp_label(),
            b.temp_var(),
            cur,
            signed_decimal(offsets.last() as int),
        );
        lemma_note(b.temp(), Kind::LoadIndexConst, row);
        lemma_chain(a, b, b.temp());
        lemma_chain(a, b.temp(), b.temp().note(Kind::LoadIndexConst, row));
    }
}

proof fn lemma_rhs(a: Pen, f: FunctionData, e: Exp)
    ensures
        goes_on(a, a.rhs(f, e).0),
        a.rhs(f, e).0.base == a.base,
{
    lemma_same(a);
    match e {
        Exp::AccessPath(x) => {
            lemma_walk(a, var_name(f, a.scope, x.variable_ref), x.offsets@);
        },
        Exp::ObjectRef(CallObject::FunctionPtr(name)) => {
            lemma_note(a, Kind::Taken, rows::one_row(name@));
        },
        _ => {},
    }
}

proof fn lemma_settle(a: Pen, r: Rhs)
    ensures
        goes_on(a, a.settle(r).0),
        a.settle(r).0.base == a.base,
{
    lemma_same(a);
    lemma_temp(a);
    let (s, t) = (a.temp_label(), a.temp_var());
    match r {
        Rhs::Var(v) => {},
        Rhs::Const(c) => {
            let row = rows::three_row(s, t, c);
            lemma_note(a.temp(), Kind::ConstAssign, row);
            lemma_chain(a, a.temp(), a.temp().note(Kind::ConstAssign, row));
        },
        Rhs::Object(ty) => {
            let site = "l:"@ + s;
            let row = rows::three_row(s, t, site);
            let b = a.temp().note(Kind::Alloc, row);
            lemma_note(a.temp(), Kind::Alloc, row);
            lemma_chain(a, a.temp(), b);
            lemma_note(b, Kind::AllocType, rows::two_row(site, ty));
            lemma_chain(a, b, b.note(Kind::AllocType, rows::two_row(site, ty)));
        },
    }
}

proof fn lemma_exp(a: Pen, f: FunctionData, e: Exp)
    ensures
        goes_on(a, a.exp_var(f, e).0),
        a.exp_var(f, e).0.base == a.base,
{
    let (b, r) = a.rhs(f, e);
    lemma_rhs(a, f, e);
    lemma_settle(b, r);
    lemma_chain(a, b, b.settle(r).0);
}

proof fn lemma_all_rhs(a: Pen, f: FunctionData, es: Seq<Exp>)
    ensures
        goes_on(a, a.all_rhs(f, es).0),
        a.all_rhs(f, es).0.base == a.base,
    decreases es.len(),
{
    if es.len() == 0 {
        lemma_same(a);
    } else {
        lemma_all_rhs(a, f, es.drop_last());
        let b = a.all_rhs(f, es.drop_last()).0;
        lemma_rhs(b, f, es.last());
        lemma_chain(a, b, b.rhs(f, es.last()).0);
    }
}

proof fn lemma_all_vars(a: Pen, f: FunctionData, es: Seq<Exp>)
    ensures
        goes_on(a, a.all_vars(f, es).0),
        a.all_vars(f, es).0.base == a.base,
    decreases es.len(),
{
    if es.len() == 0 {
        lemma_same(a);
    } else {
        lemma_all_vars(a, f, es.drop_last());
        let b = a.all_vars(f, es.drop_last()).0;
        lemma_exp(b, f, es.last());
        lemma_chain(a, b, b.exp_var(f, es.last()).0);
    }
}

proof fn lemma_assign_all(a: Pen, to: Name, rs: Seq<Rhs>)
    ensures
        goes_on(a, a.assign_all(to, rs)),
        a.assign_all(to, rs).base == a.base,
    decreases rs.len(),
{
    if rs.len() == 0 {
        lemma_same(a);
    } else {
        lemma_assign_all(a, to, rs.drop_last());
        let b = a.assign_all(to, rs.drop_last());
        let s = b.base;
        match rs.last() {
            Rhs::Var(v) => {
                lemma_note(b, Kind::Mov, rows::three_row(s, to, v));
                lemma_chain(a, b, b.note(Kind::Mov, rows::three_row(s, to, v)));
            },
            Rhs::Const(c) => {
                lemma_note(b, Kind::ConstAssign, rows::three_row(s, to, c));
                lemma_chain(a, b, b.note(Kind::ConstAssign, rows::three_row(s, to, c)));
            },
            Rhs::Object(ty) => {
                let site = "l:"@ + s + ":"@ + decimal((rs.len() - 1) as nat);
                let row = rows::three_row(s, to, site);
                let c = b.note(Kind::Alloc, row);
                lemma_note(b, Kind::Alloc, row);
                lemma_chain(a, b, c);
                lemma_note(c, Kind::AllocType, rows::two_row(site, ty));
                lemma_chain(a, c, c.note(Kind::AllocType, rows::two_row(site, ty)));
            },
        }
    }
}

proof fn lemma_join_all(a: Pen, f: FunctionData, to: Name, vs: Seq<VariableRef>)
    ensures
        goes_on(a, a.join_all(f, to, vs)),
    decreases vs.len(),
{
    if vs.len() == 0 {
        lemma_same(a);
    } else {
        lemma_join_all(a, f, to, vs.drop_last());
        let b = a.join_all(f, to, vs.drop_last());
        let row = rows::three_row(a.base, to, var_name(f, a.scope, vs.last()));
        lemma_note(b, Kind::Mov, row);
        lemma_chain(a, b, b.note(Kind::Mov, row));
    }
}

proof fn lemma_pass_all(a: Pen, args: Seq<Name>, shift: nat)
    ensures
        goes_on(a, a.pass_all(args, shift)),
    decreases args.len(),
{
    if args.len() == 0 {
        lemma_same(a);
    } else {
        lemma_pass_all(a, args.drop_last(), shift);
        let b = a.pass_all(args.drop_last(), shift);
        let row = rows::indexed_row(a.base, (args.len() - 1 + shift) as usize, args.last());
        lemma_note(b, Kind::ActualArg, row);
        lemma_chain(a, b, b.note(Kind::ActualArg, row));
    }
}

proof fn lemma_call_all(a: Pen, targets: Seq<String>)
    ensures
        goes_on(a, a.call_all(targets)),
    decreases targets.len(),
{
    if targets.len() == 0 {
        lemma_same(a);
    } else {
        lemma_call_all(a, targets.drop_last());
        let b = a.call_all(targets.drop_last());
        let row = rows::two_row(a.base, targets.last()@);
        lemma_note(b, Kind::DirectCall, row);
        lemma_chain(a, b, b.note(Kind::DirectCall, row));
    }
}

proof fn lemma_two_notes(a: Pen, x: Kind, r: Seq<Datum>, y: Kind, s: Seq<Datum>)
    requires
        !outer(x) && x != Kind::InProc,
        !outer(y) && y != Kind::InProc,
    ensures
        goes_on(a, a.note(x, r).note(y, s)),
{
    lemma_note(a, x, r);
    lemma_note(a.note(x, r), y, s);
    lemma_chain(a, a.note(x, r), a.note(x, r).note(y, s));
}

proof fn lemma_resolve(a: Pen, style: CallStyle, d: Name)
    ensures
        goes_on(a, a.resolve(style, d)),
{
    let s = a.base;
    match style {
        CallStyle::DirectCall { targets } => {
            lemma_call_all(a, targets@);
        },
        CallStyle::JavaCall { receiver, cls, simple_name, descriptor } => {
            lemma_two_notes(
                a,
                Kind::VirtualCall,
                rows::three_row(s, d, class_sig(cls@, simple_name@, descriptor@)),
                Kind::ClassSite,
                rows::three_row(cls@, simple_name@, descriptor@),
            );
        },
        CallStyle::LuaCall { receiver, method } => {
            lemma_two_notes(
                a,
                Kind::VirtualCall,
                rows::three_row(s, d, lua_sig(method@)),
                Kind::LuaSite,
                rows::one_row(method@),
            );
        },
        CallStyle::FuncPtrCall { callee, signature } => {
            let sig = match signature {
                Some(sig) => sig@,
                None => Seq::empty(),
            };
            lemma_two_notes(
                a,
                Kind::VirtualCall,
                rows::three_row(s, d, pointer_sig(sig)),
                Kind::PointerSite,
                rows::one_row(sig),
            );
        },
        CallStyle::Unknown => {
            lemma_same(a);
        },
    }
}

proof fn lemma_call(
    a: Pen,
    f: FunctionData,
    style: CallStyle,
    rets: Seq<VariableRef>,
    args: Seq<Exp>,
)
    ensures
        goes_on(a, a.call(f, style, rets, args)),
{
    let (b, argv) = a.all_vars(f, args);
    lemma_all_vars(a, f, args);
    let (c, d) = b.operand(f, style);
    assert(goes_on(b, c)) by {
        lemma_same(b);
        if let CallStyle::FuncPtrCall { callee, signature } = style {
            lemma_walk(b, var_name(f, b.scope, callee.variable_ref), callee.offsets@);
        }
    }
    lemma_chain(a, b, c);
    let g = c.site();
    lemma_record(c, c.base);
    lemma_chain(a, c, g);
    let s = a.base;
    let e = match d {
        Some(d) => g.note(Kind::ActualArg, rows::indexed_row(s, 0, d)),
        None => g,
    };
    assert(goes_on(g, e)) by {
        lemma_same(g);
        if let Some(x) = d {
            lemma_note(g, Kind::ActualArg, rows::indexed_row(s, 0, x));
        }
    }
    lemma_chain(a, g, e);
    let shift = if style is JavaCall {
        1nat
    } else {
        0nat
    };
    let h = e.pass_all(argv, shift);
    lemma_pass_all(e, argv, shift);
    lemma_chain(a, e, h);
    let i = if rets.len() > 0 {
        h.note(Kind::BindRet, rows::two_row(s, var_name(f, a.scope, rets[0])))
    } else {
        h
    };
    assert(goes_on(h, i)) by {
        lemma_same(h);
        lemma_note(h, Kind::BindRet, rows::two_row(s, var_name(f, a.scope, rets[0])));
    }
    lemma_chain(a, h, i);
    let name = match d {
        Some(d) => d,
        None => Seq::empty(),
    };
    lemma_resolve(i, style, name);
    lemma_chain(a, i, i.resolve(style, name));
}

proof fn lemma_load(a: Pen, f: FunctionData, to: Name, source: Address, field: Name)
    ensures
        goes_on(a, a.load(f, to, source, field)),
{
    if is_global(source) {
        let b = a.site();
        lemma_record(a, a.base);
        let row = rows::four_row(a.base, to, "$globals"@, field);
        lemma_note(b, Kind::LoadStatic, row);
        lemma_chain(a, b, b.note(Kind::LoadStatic, row));
    } else {
        lemma_walk(a, var_name(f, a.scope, source.variable_ref), source.offsets@);
        let (b, base) = a.address(f, source);
        let c = b.site();
        lemma_record(b, b.base);
        lemma_chain(a, b, c);
        let row = rows::four_row(a.base, to, base, field);
        lemma_note(c, Kind::LoadField, row);
        lemma_chain(a, c, c.note(Kind::LoadField, row));
    }
}

proof fn lemma_store(a: Pen, f: FunctionData, dest: Address, field: Name, value: Exp)
    ensures
        goes_on(a, a.store(f, dest, field, value)),
{
    let (b, from) = a.exp_var(f, value);
    lemma_exp(a, f, value);
    let s = a.base;
    let at = var_name(f, a.scope, dest.variable_ref);
    if field.len() == 0 {
        if dest.offsets@.len() > 0 {
            let offs = dest.offsets@.drop_last();
            lemma_walk(b, at, offs);
            let (c, base) = b.walk(at, offs);
            lemma_chain(a, b, c);
            lemma_record(c, c.base);
            lemma_chain(a, c, c.site());
            let row = rows::four_row(s, base, signed_decimal(dest.offsets@.last() as int), from);
            lemma_note(c.site(), Kind::StoreIndexConst, row);
            lemma_chain(a, c.site(), c.site().note(Kind::StoreIndexConst, row));
        }
    } else if is_global(dest) {
        lemma_record(b, b.base);
        lemma_chain(a, b, b.site());
        let row = rows::four_row(s, "$globals"@, field, from);
        lemma_note(b.site(), Kind::StoreStatic, row);
        lemma_chain(a, b.site(), b.site().note(Kind::StoreStatic, row));
    } else {
        lemma_walk(b, var_name(f, b.scope, dest.variable_ref), dest.offsets@);
        let (c, base) = b.address(f, dest);
        lemma_chain(a, b, c);
        lemma_record(c, c.base);
        lemma_chain(a, c, c.site());
        let row = rows::four_row(s, base, field, from);
        lemma_note(c.site(), Kind::StoreField, row);
        lemma_chain(a, c.site(), c.site().note(Kind::StoreField, row));
    }
}

proof fn lemma_statement(a: Pen, f: FunctionData, st: Statement)
    ensures
        goes_on(a, a.statement(f, st)),
{
    match st {
        Statement::Assign { dest, sources } => {
            let (b, rs) = a.all_rhs(f, sources@);
            lemma_all_rhs(a, f, sources@);
            lemma_record(b, b.base);
            lemma_chain(a, b, b.site());
            let to = var_name(f, a.scope, dest);
            lemma_assign_all(b.site(), to, rs);
            lemma_chain(a, b.site(), b.site().assign_all(to, rs));
        },
        Statement::Load { dest, source, field } => {
            lemma_load(a, f, var_name(f, a.scope, dest), source, field@);
        },
        Statement::Store { address, field, value } => {
            lemma_store(a, f, address, field@, value);
        },
        Statement::CallAssign { style, rets, args } => {
            lemma_call(a, f, style, rets@, args@);
        },
        Statement::Phi { dest, operands } => {
            lemma_record(a, a.base);
            let to = var_name(f, a.scope, dest);
            lemma_join_all(a.site(), f, to, operands@);
            lemma_chain(a, a.site(), a.site().join_all(f, to, operands@));
        },
        Statement::ParamFlow => {
            lemma_same(a);
        },
        Statement::Nop => {
            lemma_same(a);
        },
    }
}

// ---------------------------------------------------------------------------
// Blocks
// ---------------------------------------------------------------------------

/// The label of statement `i` of block `b`.
pub open spec fn label(scope: Name, b: nat, i: nat) -> Name {
    scope + "#"@ + decimal(b) + "."@ + decimal(i)
}

/// The label of the return of block `b`.
pub open spec fn return_label(scope: Name, b: nat) -> Name {
    scope + "#"@ + decimal(b) + ".ret"@
}

/// What a block returns, if it returns something: of several values the first.
pub open spec fn returned_first(block: BasicBlock) -> Option<Exp> {
    match block.terminator {
        Some(Terminator::Return { args }) => if args@.len() > 0 {
            Some(args@[0])
        } else {
            None
        },
        _ => None,
    }
}

/// The variable an expression denotes at the statement with the label: itself, or the
/// temporary that its value, or what its last offset reads, is put into.
pub open spec fn denoted(f: FunctionData, scope: Name, at: Name, e: Exp) -> Name {
    match e {
        Exp::Variable(v) => var_name(f, scope, v),
        Exp::AccessPath(a) => if a.offsets@.len() == 0 {
            var_name(f, scope, a.variable_ref)
        } else {
            "$t"@ + decimal((a.offsets@.len() - 1) as nat) + "@"@ + at
        },
        _ => "$t"@ + decimal(0) + "@"@ + at,
    }
}

/// The pen at the start of a statement.
pub open spec fn poised(q: Pen, proc: Name, scope: Name, at: Name) -> bool {
    q.proc == proc && q.scope == scope && q.base == at && q.sub == 0
}

proof fn lemma_denoted(a: Pen, f: FunctionData, e: Exp)
    requires
        a.sub == 0,
    ensures
        a.exp_var(f, e).1 == denoted(f, a.scope, a.base, e),
{
    match e {
        Exp::AccessPath(x) => {
            lemma_walk(a, var_name(f, a.scope, x.variable_ref), x.offsets@);
        },
        _ => {},
    }
}

proof fn lemma_begin(a: Pen, at: Name)
    ensures
        goes_on(a, a.begin(at)),
{
    assert(a.begin(at).log == a.log);
}

/// Statement `i` of a list is lowered on the way to `log`.
spec fn lowers(
    log: Seq<Entry>,
    f: FunctionData,
    list: Seq<Statement>,
    proc: Name,
    scope: Name,
    b: nat,
    i: int,
) -> bool {
    exists|q: Pen|
        poised(q, proc, scope, label(scope, b, i as nat)) && #[trigger] initial(
            q.statement(f, list[i]).log,
            log,
        )
}

/// The note at `x` was written for statement `i` of a list.
spec fn writes(
    log: Seq<Entry>,
    x: int,
    f: FunctionData,
    list: Seq<Statement>,
    proc: Name,
    scope: Name,
    b: nat,
    i: int,
) -> bool {
    exists|q: Pen|
        poised(q, proc, scope, label(scope, b, i as nat)) && q.log.len() <= x < q.statement(
            f,
            list[i],
        ).log.len() && #[trigger] initial(q.statement(f, list[i]).log, log)
}

proof fn lemma_lowers(
    m: Seq<Entry>,
    log: Seq<Entry>,
    f: FunctionData,
    few: Seq<Statement>,
    list: Seq<Statement>,
    proc: Name,
    scope: Name,
    b: nat,
    i: int,
)
    requires
        initial(m, log),
        few[i] == list[i],
        lowers(m, f, few, proc, scope, b, i),
    ensures
        lowers(log, f, list, proc, scope, b, i),
{
    let q = choose|q: Pen|
        poised(q, proc, scope, label(scope, b, i as nat)) && #[trigger] initial(
            q.statement(f, few[i]).log,
            m,
        );
    lemma_initial(q.statement(f, few[i]).log, m, log);
    assert(initial(q.statement(f, list[i]).log, log));
}

proof fn lemma_writes(
    m: Seq<Entry>,
    log: Seq<Entry>,
    x: int,
    f: FunctionData,
    few: Seq<Statement>,
    list: Seq<Statement>,
    proc: Name,
    scope: Name,
    b: nat,
    i: int,
)
    requires
        initial(m, log),
        few[i] == list[i],
        writes(m, x, f, few, proc, scope, b, i),
    ensures
        writes(log, x, f, list, proc, scope, b, i),
{
    let q = choose|q: Pen|
        poised(q, proc, scope, label(scope, b, i as nat)) && q.log.len() <= x < q.statement(
            f,
            few[i],
        ).log.len() && #[trigger] initial(q.statement(f, few[i]).log, m);
    lemma_initial(q.statement(f, few[i]).log, m, log);
    assert(initial(q.statement(f, list[i]).log, log));
}

proof fn lemma_statements_go_on(a: Pen, f: FunctionData, b: nat, list: Seq<Statement>)
    ensures
        goes_on(a, a.statements(f, b, list)),
    decreases list.len(),
{
    if list.len() == 0 {
        lemma_same(a);
    } else {
        let few = list.drop_last();
        lemma_statements_go_on(a, f, b, few);
        let m = a.statements(f, b, few);
        let q = m.begin(label(a.scope, b, few.len()));
        lemma_begin(m, label(a.scope, b, few.len()));
        lemma_statement(q, f, list.last());
        lemma_chain(a, m, q);
        lemma_chain(a, q, q.statement(f, list.last()));
    }
}

proof fn lemma_statements_step(a: Pen, f: FunctionData, b: nat, list: Seq<Statement>)
    requires
        list.len() > 0,
    ensures
        ({
            let m = a.statements(f, b, list.drop_last());
            let q = m.begin(label(a.scope, b, (list.len() - 1) as nat));
            let done = a.statements(f, b, list);
            &&& done == q.statement(f, list.last())
            &&& poised(q, a.proc, a.scope, label(a.scope, b, (list.len() - 1) as nat))
            &&& q.log == m.log
            &&& initial(m.log, done.log)
            &&& initial(a.log, m.log)
        }),
{
    let few = list.drop_last();
    lemma_statements_go_on(a, f, b, few);
    let m = a.statements(f, b, few);
    let q = m.begin(label(a.scope, b, few.len()));
    lemma_statement(q, f, list.last());
}

proof fn lemma_statements_lower(a: Pen, f: FunctionData, b: nat, list: Seq<Statement>, i: int)
    requires
        0 <= i < list.len(),
    ensures
        lowers(a.statements(f, b, list).log, f, list, a.proc, a.scope, b, i),
    decreases list.len(),
{
    let few = list.drop_last();
    let m = a.statements(f, b, few);
    let done = a.statements(f, b, list);
    lemma_statements_step(a, f, b, list);
    if i < few.len() {
        lemma_statements_lower(a, f, b, few, i);
        lemma_lowers(m.log, done.log, f, few, list, a.proc, a.scope, b, i);
    } else {
        let q = m.begin(label(a.scope, b, few.len()));
        lemma_last(q, f, list, a.proc, a.scope, b);
    }
}

proof fn lemma_statements_write(
    a: Pen,
    f: FunctionData,
    b: nat,
    list: Seq<Statement>,
    x: int,
) -> (i: int)
    requires
        a.log.len() <= x < a.statements(f, b, list).log.len(),
    ensures
        0 <= i < list.len(),
        writes(a.statements(f, b, list).log, x, f, list, a.proc, a.scope, b, i),
    decreases list.len(),
{
    let few = list.drop_last();
    let m = a.statements(f, b, few);
    let done = a.statements(f, b, list);
    lemma_statements_step(a, f, b, list);
    if x < m.log.len() {
        let i = lemma_statements_write(a, f, b, few, x);
        lemma_writes(m.log, done.log, x, f, few, list, a.proc, a.scope, b, i);
        i
    } else {
        let q = m.begin(label(a.scope, b, few.len()));
        lemma_last(q, f, list, a.proc, a.scope, b);
        list.len() - 1
    }
}

/// The last statement of a list is lowered, and wrote what came last.
proof fn lemma_last(
    q: Pen,
    f: FunctionData,
    list: Seq<Statement>,
    proc: Name,
    scope: Name,
    b: nat,
)
    requires
        list.len() > 0,
        poised(q, proc, scope, label(scope, b, (list.len() - 1) as nat)),
    ensures
        lowers(q.statement(f, list.last()).log, f, list, proc, scope, b, list.len() - 1),
        forall|x: int|
            q.log.len() <= x < q.statement(f, list.last()).log.len() ==> #[trigger] writes(
                q.statement(f, list.last()).log,
                x,
                f,
                list,
                proc,
                scope,
                b,
                list.len() - 1,
            ),
{
    let log = q.statement(f, list.last()).log;
    assert(initial(q.statement(f, list[list.len() - 1]).log, log));
}

proof fn lemma_initial(a: Seq<Entry>, b: Seq<Entry>, c: Seq<Entry>)
    requires
        initial(a, b),
        initial(b, c),
    ensures
        initial(a, c),
{
    assert forall|i: int| 0 <= i < a.len() implies #[trigger] c[i] == a[i] by {
        assert(b[i] == a[i]);
    }
}

/// Notes of an outer relation are left alone where the pen goes on.
proof fn lemma_outer(a: Seq<Entry>, b: Seq<Entry>, kind: Kind)
    requires
        initial(a, b),
        forall|i: int| a.len() <= i < b.len() ==> (#[trigger] b[i]).kind != kind,
    ensures
        noted(b, kind) == noted(a, kind),
    decreases b.len(),
{
    if b.len() > a.len() {
        let c = b.drop_last();
        assert forall|i: int| 0 <= i < a.len() implies #[trigger] c[i] == a[i] by {
            assert(b[i] == a[i]);
        }
        assert forall|i: int| a.len() <= i < c.len() implies (#[trigger] c[i]).kind != kind by {
            assert(b[i].kind != kind);
        }
        lemma_outer(a, c, kind);
        assert(b[b.len() - 1].kind != kind);
    } else {
        assert(a =~= b);
    }
}

/// A block that ends in a return of something adds exactly one return fact, whatever its
/// number: the procedure with the variable that the first returned value denotes. Any
/// other block adds none.
pub proof fn law_a_block_notes_its_return(a: Pen, f: FunctionData, b: nat, block: BasicBlock)
    ensures
        noted(a.block(f, b, block).log, Kind::Ret) == noted(a.log,
            Kind::Ret) + (match block.terminator {
            Some(Terminator::Return { args }) => if args@.len() > 0 {
                seq![
                    rows::two_row(
                        a.proc,
                        denoted(f, a.scope, return_label(a.scope, b), args@[0]),
                    ),
                ]
            } else {
                Seq::empty()
            },
            _ => Seq::empty(),
        }),
{
    let m = a.statements(f, b, block.statements@);
    lemma_statements_go_on(a, f, b, block.statements@);
    lemma_outer(a.log, m.log, Kind::Ret);
    let was = noted(a.log, Kind::Ret);
    assert(was + Seq::<Seq<Datum>>::empty() =~= was);
    if let Some(Terminator::Return { args }) = block.terminator {
        if args@.len() > 0 {
            let c = m.begin(return_label(a.scope, b));
            lemma_begin(m, return_label(a.scope, b));
            lemma_chain(a, m, c);
            lemma_exp(c, f, args@[0]);
            lemma_denoted(c, f, args@[0]);
            let (d, v) = c.exp_var(f, args@[0]);
            lemma_outer(c.log, d.log, Kind::Ret);
            let row = rows::two_row(a.proc, v);
            let e = d.note(Kind::Ret, row);
            assert(e.log.drop_last() =~= d.log);
            assert(was + seq![row] =~= was.push(row));
        }
    }
}

/// What the pen may do in a block beside its statements: one note of what is returned.
spec fn goes_through(a: Pen, b: Pen) -> bool {
    let (was, now) = (noted(a.log, Kind::InProc), noted(b.log, Kind::InProc));
    &&& a.proc == b.proc && a.scope == b.scope
    &&& initial(a.log, b.log)
    &&& forall|i: int|
        a.log.len() <= i < b.log.len() ==> !outer((#[trigger] b.log[i]).kind) || b.log[i].kind
            == Kind::Ret
    &&& a.line <= b.line
    &&& initial(was, now)
    &&& now.len() == was.len() + (b.line - a.line)
    &&& forall|j: int|
        was.len() <= j < now.len() ==> in_line(#[trigger] now[j], a.proc, a.line + j - was.len())
}

proof fn lemma_through(a: Pen, b: Pen, c: Pen)
    requires
        goes_through(a, b),
        goes_through(b, c),
    ensures
        goes_through(a, c),
{
    lemma_initial(a.log, b.log, c.log);
    assert forall|i: int| a.log.len() <= i < c.log.len() implies !outer(
        (#[trigger] c.log[i]).kind,
    ) || c.log[i].kind == Kind::Ret by {
        if i < b.log.len() {
            assert(c.log[i] == b.log[i]);
        }
    }
    let (x, y, z) = (
        noted(a.log, Kind::InProc),
        noted(b.log, Kind::InProc),
        noted(c.log, Kind::InProc),
    );
    assert forall|j: int| 0 <= j < x.len() implies #[trigger] z[j] == x[j] by {
        assert(y[j] == x[j]);
    }
    assert forall|j: int| x.len() <= j < z.len() implies in_line(
        #[trigger] z[j],
        a.proc,
        a.line + j - x.len(),
    ) by {
        if j < y.len() {
            assert(z[j] == y[j]);
        }
    }
}

/// The note at `x` of `log` was written while the pen lowered statement `i` of a block.
pub open spec fn from_statement(
    log: Seq<Entry>,
    x: int,
    f: FunctionData,
    proc: Name,
    scope: Name,
    b: int,
    i: int,
) -> bool {
    exists|q: Pen|
        poised(q, proc, scope, label(scope, b as nat, i as nat)) && q.log.len() <= x
            < q.statement(f, f.blocks@[b].statements@[i]).log.len() && #[trigger] initial(
            q.statement(f, f.blocks@[b].statements@[i]).log,
            log,
        )
}

/// The note at `x` of `log` was written while the pen lowered what a block returns.
pub open spec fn from_return(
    log: Seq<Entry>,
    x: int,
    f: FunctionData,
    proc: Name,
    scope: Name,
    b: int,
) -> bool {
    &&& returned_first(f.blocks@[b]) is Some
    &&& exists|q: Pen|
        poised(q, proc, scope, return_label(scope, b as nat)) && q.log.len() <= x < q.exp_var(
            f,
            returned_first(f.blocks@[b])->0,
        ).0.log.len() && #[trigger] initial(
            q.exp_var(f, returned_first(f.blocks@[b])->0).0.log,
            log,
        )
}

/// Statement `i` of block `b` is lowered on the way to `log`.
pub open spec fn lowered(
    log: Seq<Entry>,
    f: FunctionData,
    proc: Name,
    scope: Name,
    b: int,
    i: int,
) -> bool {
    exists|q: Pen|
        poised(q, proc, scope, label(scope, b as nat, i as nat)) && #[trigger] initial(
            q.statement(f, f.blocks@[b].statements@[i]).log,
            log,
        )
}

proof fn lemma_block(a: Pen, f: FunctionData, b: int)
    requires
        0 <= b < f.blocks@.len(),
    ensures
        goes_through(a, a.block(f, b as nat, f.blocks@[b])),
        initial(
            a.statements(f, b as nat, f.blocks@[b].statements@).log,
            a.block(f, b as nat, f.blocks@[b]).log,
        ),
{
    let block = f.blocks@[b];
    let list = block.statements@;
    let m = a.statements(f, b as nat, list);
    let done = a.block(f, b as nat, block);
    lemma_statements_go_on(a, f, b as nat, list);
    assert(goes_through(a, m));
    let at = return_label(a.scope, b as nat);
    let c = m.begin(at);
    lemma_begin(m, at);
    assert(goes_through(m, c));
    if let Some(Terminator::Return { args }) = block.terminator {
        lemma_through(a, m, c);
        if args@.len() > 0 {
            lemma_exp(c, f, args@[0]);
            let (d, v) = c.exp_var(f, args@[0]);
            assert(goes_through(c, d));
            lemma_through(a, c, d);
            let row = rows::two_row(a.proc, v);
            assert(done == d.note(Kind::Ret, row));
            assert(done.log.drop_last() =~= d.log);
            assert(noted(done.log, Kind::InProc) == noted(d.log, Kind::InProc));
            assert(goes_through(d, done));
            lemma_through(a, d, done);
            lemma_initial(m.log, d.log, done.log);
        }
    }
}

proof fn lemma_block_lowers(a: Pen, f: FunctionData, b: int, i: int)
    requires
        0 <= b < f.blocks@.len(),
        0 <= i < f.blocks@[b].statements@.len(),
    ensures
        lowered(a.block(f, b as nat, f.blocks@[b]).log, f, a.proc, a.scope, b, i),
{
    let list = f.blocks@[b].statements@;
    let m = a.statements(f, b as nat, list);
    let done = a.block(f, b as nat, f.blocks@[b]);
    lemma_block(a, f, b);
    lemma_statements_lower(a, f, b as nat, list, i);
    let q = choose|q: Pen|
        poised(q, a.proc, a.scope, label(a.scope, b as nat, i as nat)) && #[trigger] initial(
            q.statement(f, list[i]).log,
            m.log,
        );
    lemma_initial(q.statement(f, list[i]).log, m.log, done.log);
    assert(initial(q.statement(f, f.blocks@[b].statements@[i]).log, done.log));
}

proof fn lemma_block_writes(a: Pen, f: FunctionData, b: int, x: int)
    requires
        0 <= b < f.blocks@.len(),
        a.log.len() <= x < a.block(f, b as nat, f.blocks@[b]).log.len(),
        a.block(f, b as nat, f.blocks@[b]).log[x].kind != Kind::Ret,
    ensures
        written_in(a.block(f, b as nat, f.blocks@[b]).log, x, f, a.proc, a.scope, b),
{
    let block = f.blocks@[b];
    let list = block.statements@;
    let m = a.statements(f, b as nat, list);
    let done = a.block(f, b as nat, block);
    lemma_block(a, f, b);
    if x < m.log.len() {
        let i = lemma_statements_write(a, f, b as nat, list, x);
        let q = choose|q: Pen|
            poised(q, a.proc, a.scope, label(a.scope, b as nat, i as nat)) && q.log.len() <= x
                < q.statement(f, list[i]).log.len() && #[trigger] initial(
                q.statement(f, list[i]).log,
                m.log,
            );
        lemma_initial(q.statement(f, list[i]).log, m.log, done.log);
        assert(initial(q.statement(f, f.blocks@[b].statements@[i]).log, done.log));
        assert(from_statement(done.log, x, f, a.proc, a.scope, b, i));
    } else {
        let at = return_label(a.scope, b as nat);
        let c = m.begin(at);
        lemma_statements_go_on(a, f, b as nat, list);
        assert(returned_first(block) is Some);
        let e = returned_first(block)->0;
        let (d, v) = c.exp_var(f, e);
        assert(done == d.note(Kind::Ret, rows::two_row(a.proc, v)));
        assert(initial(d.log, done.log));
        assert(x < d.log.len());
        assert(poised(c, a.proc, a.scope, at));
        assert(initial(c.exp_var(f, returned_first(f.blocks@[b])->0).0.log, done.log));
        assert(from_return(done.log, x, f, a.proc, a.scope, b));
    }
}

// ---------------------------------------------------------------------------
// Functions
// ---------------------------------------------------------------------------

/// The return facts of some blocks: one for each that returns something, in order.
pub open spec fn return_rows(f: FunctionData, scope: Name, n: int) -> Seq<Seq<Datum>>
    decreases n,
{
    if n <= 0 {
        Seq::empty()
    } else {
        let rest = return_rows(f, scope, n - 1);
        match returned_first(f.blocks@[n - 1]) {
            Some(e) => rest.push(
                rows::two_row(
                    f.name@,
                    denoted(f, scope, return_label(scope, (n - 1) as nat), e),
                ),
            ),
            None => rest,
        }
    }
}

proof fn lemma_blocks(a: Pen, f: FunctionData, n: int)
    requires
        0 <= n <= f.blocks@.len(),
        a.proc == f.name@,
    ensures
        goes_through(a, a.blocks(f, f.blocks@.take(n))),
        noted(a.blocks(f, f.blocks@.take(n)).log, Kind::Ret) == noted(
            a.log,
            Kind::Ret,
        ) + return_rows(f, a.scope, n),
        n > 0 ==> {
            let m = a.blocks(f, f.blocks@.take(n - 1));
            let done = a.blocks(f, f.blocks@.take(n));
            &&& done == m.block(f, (n - 1) as nat, f.blocks@[n - 1])
            &&& m.proc == a.proc && m.scope == a.scope
            &&& initial(a.log, m.log)
            &&& initial(m.log, done.log)
        },
    decreases n,
{
    let list = f.blocks@.take(n);
    let done = a.blocks(f, list);
    if n == 0 {
        assert(list.len() == 0);
        assert(noted(a.log, Kind::Ret) + return_rows(f, a.scope, n) =~= noted(a.log, Kind::Ret));
    } else {
        let few = f.blocks@.take(n - 1);
        assert(list.drop_last() =~= few);
        lemma_blocks(a, f, n - 1);
        let m = a.blocks(f, few);
        let b = n - 1;
        assert(list.last() == f.blocks@[b]);
        assert(done == m.block(f, b as nat, f.blocks@[b]));
        lemma_block(m, f, b);
        law_a_block_notes_its_return(m, f, b as nat, f.blocks@[b]);
        lemma_through(a, m, done);
        let (w, r) = (noted(a.log, Kind::Ret), return_rows(f, a.scope, n - 1));
        assert(noted(m.log, Kind::Ret) == w + r);
        match returned_first(f.blocks@[b]) {
            Some(e) => {
                let row = rows::two_row(
                    f.name@,
                    denoted(f, a.scope, return_label(a.scope, b as nat), e),
                );
                assert((w + r) + seq![row] =~= w + r.push(row));
            },
            None => {
                assert((w + r) + Seq::<Seq<Datum>>::empty() =~= w + r);
            },
        }
    }
}

proof fn lemma_blocks_lower(a: Pen, f: FunctionData, n: int, b: int, i: int)
    requires
        0 <= b < n <= f.blocks@.len(),
        0 <= i < f.blocks@[b].statements@.len(),
        a.proc == f.name@,
    ensures
        lowered(a.blocks(f, f.blocks@.take(n)).log, f, a.proc, a.scope, b, i),
    decreases n,
{
    lemma_blocks(a, f, n);
    let m = a.blocks(f, f.blocks@.take(n - 1));
    let done = a.blocks(f, f.blocks@.take(n));
    if b < n - 1 {
        lemma_blocks_lower(a, f, n - 1, b, i);
        let q = choose|q: Pen|
            poised(q, a.proc, a.scope, label(a.scope, b as nat, i as nat)) && #[trigger] initial(
                q.statement(f, f.blocks@[b].statements@[i]).log,
                m.log,
            );
        lemma_initial(q.statement(f, f.blocks@[b].statements@[i]).log, m.log, done.log);
    } else {
        lemma_block_lowers(m, f, b, i);
    }
}

proof fn lemma_blocks_write(a: Pen, f: FunctionData, n: int, x: int)
    requires
        0 <= n <= f.blocks@.len(),
        a.proc == f.name@,
        a.log.len() <= x < a.blocks(f, f.blocks@.take(n)).log.len(),
        a.blocks(f, f.blocks@.take(n)).log[x].kind != Kind::Ret,
    ensures
        sourced(a.blocks(f, f.blocks@.take(n)).log, x, f, a.proc, a.scope, n),
    decreases n,
{
    let done = a.blocks(f, f.blocks@.take(n));
    if n == 0 {
        assert(f.blocks@.take(n).len() == 0);
        assert(done == a);
    } else {
        lemma_blocks(a, f, n);
        let m = a.blocks(f, f.blocks@.take(n - 1));
        if x < m.log.len() {
            assert(done.log[x] == m.log[x]);
            lemma_blocks_write(a, f, n - 1, x);
            lemma_sourced(m.log, done.log, x, f, a.proc, a.scope, n - 1);
            lemma_sourced_more(done.log, x, f, a.proc, a.scope, n - 1, n);
        } else {
            lemma_block_writes(m, f, n - 1, x);
            assert(written_in(done.log, x, f, a.proc, a.scope, n - 1));
        }
    }
}

/// The note was written for a statement, or for what is returned, of block `b`.
pub open spec fn written_in(
    log: Seq<Entry>,
    x: int,
    f: FunctionData,
    proc: Name,
    scope: Name,
    b: int,
) -> bool {
    ||| from_return(log, x, f, proc, scope, b)
    ||| exists|i: int|
        0 <= i < f.blocks@[b].statements@.len() && #[trigger] from_statement(
            log,
            x,
            f,
            proc,
            scope,
            b,
            i,
        )
}

/// The note was written for one of the first `n` blocks.
pub open spec fn sourced(
    log: Seq<Entry>,
    x: int,
    f: FunctionData,
    proc: Name,
    scope: Name,
    n: int,
) -> bool {
    exists|b: int| 0 <= b < n && #[trigger] written_in(log, x, f, proc, scope, b)
}

proof fn lemma_sourced(
    m: Seq<Entry>,
    log: Seq<Entry>,
    x: int,
    f: FunctionData,
    proc: Name,
    scope: Name,
    n: int,
)
    requires
        initial(m, log),
        sourced(m, x, f, proc, scope, n),
    ensures
        sourced(log, x, f, proc, scope, n),
{
    let b = choose|b: int| 0 <= b < n && #[trigger] written_in(m, x, f, proc, scope, b);
    if from_return(m, x, f, proc, scope, b) {
        let e = returned_first(f.blocks@[b])->0;
        let q = choose|q: Pen|
            poised(q, proc, scope, return_label(scope, b as nat)) && q.log.len() <= x < q.exp_var(
                f,
                returned_first(f.blocks@[b])->0,
            ).0.log.len() && #[trigger] initial(
                q.exp_var(f, returned_first(f.blocks@[b])->0).0.log,
                m,
            );
        lemma_initial(q.exp_var(f, returned_first(f.blocks@[b])->0).0.log, m, log);
        assert(from_return(log, x, f, proc, scope, b));
    } else {
        let i = choose|i: int|
            0 <= i < f.blocks@[b].statements@.len() && #[trigger] from_statement(
                m,
                x,
                f,
                proc,
                scope,
                b,
                i,
            );
        let q = choose|q: Pen|
            poised(q, proc, scope, label(scope, b as nat, i as nat)) && q.log.len() <= x
                < q.statement(f, f.blocks@[b].statements@[i]).log.len() && #[trigger] initial(
                q.statement(f, f.blocks@[b].statements@[i]).log,
                m,
            );
        lemma_initial(q.statement(f, f.blocks@[b].statements@[i]).log, m, log);
        assert(from_statement(log, x, f, proc, scope, b, i));
    }
    assert(written_in(log, x, f, proc, scope, b));
}

proof fn lemma_sourced_more(
    log: Seq<Entry>,
    x: int,
    f: FunctionData,
    proc: Name,
    scope: Name,
    n: int,
    k: int,
)
    requires
        n <= k,
        sourced(log, x, f, proc, scope, n),
    ensures
        sourced(log, x, f, proc, scope, k),
{
    let b = choose|b: int| 0 <= b < n && #[trigger] written_in(log, x, f, proc, scope, b);
    assert(written_in(log, x, f, proc, scope, b));
}

proof fn lemma_formals(a: Pen, n: nat)
    ensures
        a.formals(n).log.len() == a.log.len() + n,
        initial(a.log, a.formals(n).log),
        a.formals(n).proc == a.proc && a.formals(n).scope == a.scope,
        a.formals(n).line == a.line,
        forall|i: int|
            0 <= i < n ==> #[trigger] a.formals(n).log[a.log.len() + i] == (Entry {
                kind: Kind::Formal,
                row: rows::indexed_row(a.proc, i as usize, param_name(a.scope, i as nat)),
            }),
    decreases n,
{
    if n > 0 {
        let k = (n - 1) as nat;
        lemma_formals(a, k);
        let b = a.formals(k);
        let c = a.formals(n);
        assert forall|i: int| 0 <= i < n implies #[trigger] c.log[a.log.len() + i] == (Entry {
            kind: Kind::Formal,
            row: rows::indexed_row(a.proc, i as usize, param_name(a.scope, i as nat)),
        }) by {
            if i < k {
                assert(b.log[a.log.len() + i] == c.log[a.log.len() + i]);
            }
        }
    }
}

/// The notes that a function begins with: the procedure, its class where its name has one,
/// and its formals by position.
pub open spec fn heading(f: FunctionData, scope: Name) -> Seq<Entry> {
    let one = seq![Entry { kind: Kind::Procedure, row: seq![Datum::Text(f.name@)] }];
    let two = match declaring_type(f.name@) {
        Some(ty) => one.push(
            Entry { kind: Kind::ProcType, row: seq![Datum::Text(f.name@), Datum::Text(ty)] },
        ),
        None => one,
    };
    two + Seq::new(
        f.params as nat,
        |i: int|
            Entry {
                kind: Kind::Formal,
                row: seq![
                    Datum::Text(f.name@),
                    Datum::Num(i as usize),
                    Datum::Text("par"@ + decimal(i as nat) + "@"@ + scope),
                ],
            },
    )
}

/// The pen behind the heading of a function.
spec fn headed(a: Pen, f: FunctionData, scope: Name) -> Pen {
    let b = (Pen { proc: f.name@, scope, line: 0, ..a }).note(
        Kind::Procedure,
        rows::one_row(f.name@),
    );
    (match declaring_type(f.name@) {
        Some(ty) => b.note(Kind::ProcType, rows::two_row(f.name@, ty)),
        None => b,
    }).formals(f.params as nat)
}

proof fn lemma_headed(a: Pen, f: FunctionData, scope: Name)
    ensures
        headed(a, f, scope).log == a.log + heading(f, scope),
        headed(a, f, scope).proc == f.name@ && headed(a, f, scope).scope == scope,
        headed(a, f, scope).line == 0,
        a.function(f, scope) == headed(a, f, scope).blocks(f,
            f.blocks@.take(f.blocks@.len() as int)),
        noted(headed(a, f, scope).log, Kind::InProc) == noted(a.log, Kind::InProc),
        noted(headed(a, f, scope).log, Kind::Ret) == noted(a.log, Kind::Ret),
{
    let b = (Pen { proc: f.name@, scope, line: 0, ..a }).note(
        Kind::Procedure,
        rows::one_row(f.name@),
    );
    let c = match declaring_type(f.name@) {
        Some(ty) => b.note(Kind::ProcType, rows::two_row(f.name@, ty)),
        None => b,
    };
    lemma_formals(c, f.params as nat);
    let d = headed(a, f, scope);
    let all = a.log + heading(f, scope);
    assert(d.log.len() == all.len());
    assert forall|i: int| 0 <= i < all.len() implies d.log[i] == all[i] by {
        if i < c.log.len() {
            assert(d.log[i] == c.log[i]);
        } else {
            let k = i - c.log.len();
            assert(d.log[c.log.len() + k].row =~= all[i].row);
        }
    }
    assert(d.log =~= all);
    assert(f.blocks@.take(f.blocks@.len() as int) =~= f.blocks@);
    assert(initial(a.log, d.log));
    assert forall|i: int| a.log.len() <= i < d.log.len() implies (#[trigger] d.log[i]).kind
        != Kind::InProc && d.log[i].kind != Kind::Ret by {
        assert(d.log[i] == heading(f, scope)[i - a.log.len()]);
    }
    lemma_outer(a.log, d.log, Kind::InProc);
    lemma_outer(a.log, d.log, Kind::Ret);
}

/// A function is noted as a procedure with its class and its formals; after that come its
/// blocks. Its return facts are one per block that returns something, and its labels are
/// placed in it line after line from the first.
pub proof fn law_functions_are_noted(a: Pen, f: FunctionData, scope: Name, j: int)
    ensures
        initial(a.log + heading(f, scope), a.function(f, scope).log),
        noted(a.function(f, scope).log, Kind::Ret) == noted(a.log, Kind::Ret) + return_rows(
            f,
            scope,
            f.blocks@.len() as int,
        ),
        initial(noted(a.log, Kind::InProc), noted(a.function(f, scope).log, Kind::InProc)),
        noted(a.log, Kind::InProc).len() <= j < noted(
            a.function(f, scope).log,
            Kind::InProc,
        ).len() ==> in_line(
            noted(a.function(f, scope).log, Kind::InProc)[j],
            f.name@,
            j - noted(a.log, Kind::InProc).len(),
        ),
        forall|x: int|
            a.log.len() + heading(f, scope).len() <= x < a.function(f, scope).log.len() ==> {
                let kind = (#[trigger] a.function(f, scope).log[x]).kind;
                !outer(kind) || kind == Kind::Ret
            },
{
    let m = headed(a, f, scope);
    lemma_headed(a, f, scope);
    lemma_blocks(m, f, f.blocks@.len() as int);
}

/// Every statement of every block of a function is lowered, under the label of its block
/// and its position; and apart from the heading and the return facts, every note of the
/// function was written for one of them or for what a block returns.
pub proof fn law_every_statement_is_lowered(
    a: Pen,
    f: FunctionData,
    scope: Name,
    b: int,
    i: int,
    x: int,
)
    ensures
        0 <= b < f.blocks@.len() && 0 <= i < f.blocks@[b].statements@.len() ==> exists|q: Pen|
            {
                &&& q.proc == f.name@ && q.scope == scope && q.sub == 0
                &&& q.base == scope + "#"@ + decimal(b as nat) + "."@ + decimal(i as nat)
                &&& #[trigger] initial(
                    q.statement(f, f.blocks@[b].statements@[i]).log,
                    a.function(f, scope).log,
                )
            },
        a.log.len() + heading(f, scope).len() <= x < a.function(f, scope).log.len() && a.function(
            f,
            scope,
        ).log[x].kind != Kind::Ret ==> sourced(
            a.function(f, scope).log,
            x,
            f,
            f.name@,
            scope,
            f.blocks@.len() as int,
        ),
{
    let m = headed(a, f, scope);
    lemma_headed(a, f, scope);
    let n = f.blocks@.len() as int;
    let log = a.function(f, scope).log;
    if 0 <= b < n && 0 <= i < f.blocks@[b].statements@.len() {
        lemma_blocks_lower(m, f, n, b, i);
        let q = choose|q: Pen|
            poised(q, m.proc, m.scope, label(scope, b as nat, i as nat)) && #[trigger] initial(
                q.statement(f, f.blocks@[b].statements@[i]).log,
                log,
            );
        assert(initial(q.statement(f, f.blocks@[b].statements@[i]).log, log));
    }
    if a.log.len() + heading(f, scope).len() <= x < log.len() && log[x].kind != Kind::Ret {
        lemma_blocks_write(m, f, n, x);
    }
}

} // verus!
