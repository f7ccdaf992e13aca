//! Lowering one function of the intermediate representation into facts.
//!
//! A statement of the representation has no identity of its own, so one is made from
//! the function, the block and the position. One that needs temporaries (a constant
//! argument, an address with offsets) becomes several statements that share that
//! prefix. Every label is placed in the procedure's body as it is made, so the lines
//! count up in the order of the code.
//!
//! [`Pen`] says what is written down and in which order; [`Scribe`] writes it.
use vstd::prelude::*;

use crate::cir::{
    Address, BasicBlock, CallObject, CallStyle, Exp, FunctionData, Statement, Terminator, Variable,
    VariableRef,
};
use crate::ir::Name;
use crate::ledger::{self, Entry, Kind, Ledger};
use crate::rows;
use crate::text::{cat, cat3, decimal, number, signed, signed_decimal};

verus! {

// ---------------------------------------------------------------------------
// Names
// ---------------------------------------------------------------------------

/// What a variable is called in its function.
pub open spec fn stem(f: FunctionData, v: Variable) -> Name {
    match v {
        Variable::Param(i) => "par"@ + decimal(i as nat),
        Variable::Local(i) => if i < f.locals@.len() {
            f.locals@[i as int]@
        } else {
            "local"@ + decimal(i as nat)
        },
        Variable::GlobalHeap => "$heap"@,
    }
}

/// A variable's name in a scope. The version keeps what single assignment separates
/// apart: an unversioned parameter is the incoming value, a versioned one is not.
pub open spec fn var_name(f: FunctionData, scope: Name, v: VariableRef) -> Name {
    (match v.version {
        Some(n) => stem(f, v.variable) + "#"@ + decimal(n as nat),
        None => stem(f, v.variable),
    }) + "@"@ + scope
}

/// The variable that holds the `i`-th parameter on entry.
pub open spec fn param_name(scope: Name, i: nat) -> Name {
    "par"@ + decimal(i) + "@"@ + scope
}

/// The type of an object: its class, or for a function pointer the function.
pub open spec fn object_type(o: CallObject) -> Name {
    match o {
        CallObject::JavaObject(cls) => cls@,
        CallObject::LuaClass(cls) => cls@,
        CallObject::FunctionPtr(name) => pointer_type(name@),
    }
}

pub open spec fn pointer_type(p: Name) -> Name {
    "$fn:"@ + p
}

/// Text stands for itself, bytes for their number.
pub open spec fn constant(e: Exp) -> Name {
    match e {
        Exp::Str(s) => s@,
        Exp::Bytes(b) => "$bytes:"@ + decimal(b@.len()),
        _ => "$const"@,
    }
}

/// An address that is the global heap itself.
pub open spec fn is_global(a: Address) -> bool {
    a.variable_ref.variable is GlobalHeap && a.offsets@.len() == 0
}

/// The signature a call on a declared class dispatches.
pub open spec fn class_sig(cls: Name, name: Name, desc: Name) -> Name {
    cls + "->"@ + name + desc
}

/// The signature a call by name alone dispatches.
pub open spec fn lua_sig(name: Name) -> Name {
    "lua->"@ + name
}

/// The signature a call through a pointer dispatches.
pub open spec fn pointer_sig(sig: Name) -> Name {
    if sig.len() == 0 {
        "$fnptr"@
    } else {
        "$fnptr("@ + sig + ")"@
    }
}

/// An arrow stands at position `i`.
pub open spec fn arrow_at(name: Name, i: int) -> bool {
    0 <= i && i + 1 < name.len() && name[i] == '-' && name[i + 1] == '>'
}

/// The first arrow stands at position `i`.
pub open spec fn first_arrow(name: Name, i: int) -> bool {
    arrow_at(name, i) && forall|j: int| 0 <= j < i ==> !arrow_at(name, j)
}

/// The class that a qualified name declares a method in: what stands before the first
/// arrow.
pub open spec fn declaring_type(name: Name) -> Option<Name> {
    if exists|i: int| first_arrow(name, i) {
        Some(name.take(choose|i: int| first_arrow(name, i)))
    } else {
        None
    }
}

// ---------------------------------------------------------------------------
// What is written
// ---------------------------------------------------------------------------

/// What the right-hand side of an assignment turned out to be.
pub enum Rhs {
    Var(Name),
    Const(Name),
    /// An allocation of this type.
    Object(Name),
}

/// Where the writing stands: the procedure, what qualifies its names, the label of the
/// statement at hand, how many temporaries it has, the next line, and the notes.
#[verifier::ext_equal]
pub struct Pen {
    pub proc: Name,
    pub scope: Name,
    pub base: Name,
    pub sub: nat,
    pub line: nat,
    pub log: Seq<Entry>,
}

impl Pen {
    pub open spec fn note(self, kind: Kind, row: Seq<rows::Datum>) -> Pen {
        Pen { log: self.log.push(Entry { kind, row }), ..self }
    }

    /// Place a label in the body.
    pub open spec fn record(self, s: Name) -> Pen {
        let noted = self.note(Kind::InProc, rows::placed_row(s, self.proc, self.line as usize));
        Pen { line: self.line + 1, ..noted }
    }

    /// Turn to another statement.
    pub open spec fn begin(self, base: Name) -> Pen {
        Pen { base, sub: 0, ..self }
    }

    /// Place the statement itself.
    pub open spec fn site(self) -> Pen {
        self.record(self.base)
    }

    pub open spec fn temp_label(self) -> Name {
        self.base + "~"@ + decimal(self.sub)
    }

    pub open spec fn temp_var(self) -> Name {
        "$t"@ + decimal(self.sub) + "@"@ + self.base
    }

    /// Place a temporary.
    pub open spec fn temp(self) -> Pen {
        Pen { sub: self.sub + 1, ..self.record(self.temp_label()) }
    }

    /// Follow offsets from a variable, one load each.
    pub open spec fn walk(self, from: Name, offsets: Seq<i64>) -> (Pen, Name)
        decreases offsets.len(),
    {
        if offsets.len() == 0 {
            (self, from)
        } else {
            let (a, cur) = self.walk(from, offsets.drop_last());
            (
                a.temp().note(
                    Kind::LoadIndexConst,
                    rows::four_row(
                        a.temp_label(),
                        a.temp_var(),
                        cur,
                        signed_decimal(offsets.last() as int),
                    ),
                ),
                a.temp_var(),
            )
        }
    }

    /// The variable an address denotes.
    pub open spec fn address(self, f: FunctionData, a: Address) -> (Pen, Name) {
        self.walk(var_name(f, self.scope, a.variable_ref), a.offsets@)
    }

    /// What an expression contributes to an assignment.
    pub open spec fn rhs(self, f: FunctionData, e: Exp) -> (Pen, Rhs) {
        match e {
            Exp::Variable(v) => (self, Rhs::Var(var_name(f, self.scope, v))),
            Exp::AccessPath(a) => (self.address(f, a).0, Rhs::Var(self.address(f, a).1)),
            Exp::ObjectRef(o) => (
                match o {
                    CallObject::FunctionPtr(name) => self.note(Kind::Taken, rows::one_row(name@)),
                    _ => self,
                },
                Rhs::Object(object_type(o)),
            ),
            _ => (self, Rhs::Const(constant(e))),
        }
    }

    /// A right-hand side as a variable, through a temporary where it is not one.
    pub open spec fn settle(self, r: Rhs) -> (Pen, Name) {
        let (s, t) = (self.temp_label(), self.temp_var());
        match r {
            Rhs::Var(v) => (self, v),
            Rhs::Const(c) => (self.temp().note(Kind::ConstAssign, rows::three_row(s, t, c)), t),
            Rhs::Object(ty) => {
                let site = "l:"@ + s;
                (
                    self.temp().note(Kind::Alloc, rows::three_row(s, t, site)).note(
                        Kind::AllocType,
                        rows::two_row(site, ty),
                    ),
                    t,
                )
            },
        }
    }

    pub open spec fn exp_var(self, f: FunctionData, e: Exp) -> (Pen, Name) {
        self.rhs(f, e).0.settle(self.rhs(f, e).1)
    }

    /// The right-hand sides one after the other.
    pub open spec fn all_rhs(self, f: FunctionData, es: Seq<Exp>) -> (Pen, Seq<Rhs>)
        decreases es.len(),
    {
        if es.len() == 0 {
            (self, Seq::empty())
        } else {
            let (a, done) = self.all_rhs(f, es.drop_last());
            (a.rhs(f, es.last()).0, done.push(a.rhs(f, es.last()).1))
        }
    }

    /// The arguments one after the other, each as a variable.
    pub open spec fn all_vars(self, f: FunctionData, es: Seq<Exp>) -> (Pen, Seq<Name>)
        decreases es.len(),
    {
        if es.len() == 0 {
            (self, Seq::empty())
        } else {
            let (a, done) = self.all_vars(f, es.drop_last());
            (a.exp_var(f, es.last()).0, done.push(a.exp_var(f, es.last()).1))
        }
    }

    /// One operand of the assignment at hand; each operand that allocates has a site of
    /// its own.
    pub open spec fn assign(self, to: Name, r: Rhs, i: nat) -> Pen {
        let s = self.base;
        match r {
            Rhs::Var(v) => self.note(Kind::Mov, rows::three_row(s, to, v)),
            Rhs::Const(c) => self.note(Kind::ConstAssign, rows::three_row(s, to, c)),
            Rhs::Object(ty) => {
                let site = "l:"@ + s + ":"@ + decimal(i);
                self.note(Kind::Alloc, rows::three_row(s, to, site)).note(
                    Kind::AllocType,
                    rows::two_row(site, ty),
                )
            },
        }
    }

    pub open spec fn assign_all(self, to: Name, rs: Seq<Rhs>) -> Pen
        decreases rs.len(),
    {
        if rs.len() == 0 {
            self
        } else {
            self.assign_all(to, rs.drop_last()).assign(to, rs.last(), (rs.len() - 1) as nat)
        }
    }

    /// A join is as many moves as it has operands.
    pub open spec fn join_all(self, f: FunctionData, to: Name, vs: Seq<VariableRef>) -> Pen
        decreases vs.len(),
    {
        if vs.len() == 0 {
            self
        } else {
            self.join_all(f, to, vs.drop_last()).note(
                Kind::Mov,
                rows::three_row(self.base, to, var_name(f, self.scope, vs.last())),
            )
        }
    }

    /// The arguments of the call at hand, `shift` slots further on.
    pub open spec fn pass_all(self, args: Seq<Name>, shift: nat) -> Pen
        decreases args.len(),
    {
        if args.len() == 0 {
            self
        } else {
            self.pass_all(args.drop_last(), shift).note(
                Kind::ActualArg,
                rows::indexed_row(
                    self.base,
                    (args.len() - 1 + shift) as usize,
                    args.last(),
                ),
            )
        }
    }

    pub open spec fn call_all(self, targets: Seq<String>) -> Pen
        decreases targets.len(),
    {
        if targets.len() == 0 {
            self
        } else {
            self.call_all(targets.drop_last()).note(
                Kind::DirectCall,
                rows::two_row(self.base, targets.last()@),
            )
        }
    }

    /// The operand that dispatch reads, if the call has one.
    pub open spec fn operand(self, f: FunctionData, style: CallStyle) -> (Pen, Option<Name>) {
        match style {
            CallStyle::JavaCall { receiver, cls, simple_name, descriptor } => (
                self,
                Some(var_name(f, self.scope, receiver)),
            ),
            CallStyle::LuaCall { receiver, method } => (
                self,
                Some(var_name(f, self.scope, receiver)),
            ),
            CallStyle::FuncPtrCall { callee, signature } => (
                self.address(f, callee).0,
                Some(self.address(f, callee).1),
            ),
            _ => (self, None),
        }
    }

    /// The callee of the call at hand, as far as its style says.
    pub open spec fn resolve(self, style: CallStyle, d: Name) -> Pen {
        let s = self.base;
        match style {
            CallStyle::DirectCall { targets } => self.call_all(targets@),
            CallStyle::JavaCall { receiver, cls, simple_name, descriptor } => self.note(
                Kind::VirtualCall,
                rows::three_row(s, d, class_sig(cls@, simple_name@, descriptor@)),
            ).note(Kind::ClassSite, rows::three_row(cls@, simple_name@, descriptor@)),
            CallStyle::LuaCall { receiver, method } => self.note(
                Kind::VirtualCall,
                rows::three_row(s, d, lua_sig(method@)),
            ).note(Kind::LuaSite, rows::one_row(method@)),
            CallStyle::FuncPtrCall { callee, signature } => {
                let sig = match signature {
                    Some(sig) => sig@,
                    None => Seq::empty(),
                };
                self.note(Kind::VirtualCall, rows::three_row(s, d, pointer_sig(sig))).note(
                    Kind::PointerSite,
                    rows::one_row(sig),
                )
            },
            CallStyle::Unknown => self,
        }
    }

    /// A call. What dispatch reads goes to slot 0; only where it is no argument already
    /// (a receiver) do the arguments move up. Of several results the first is kept.
    pub open spec fn call(
        self,
        f: FunctionData,
        style: CallStyle,
        rets: Seq<VariableRef>,
        args: Seq<Exp>,
    ) -> Pen {
        let (a, argv) = self.all_vars(f, args);
        let (b, d) = a.operand(f, style);
        let c = b.site();
        let s = self.base;
        let e = match d {
            Some(d) => c.note(Kind::ActualArg, rows::indexed_row(s, 0, d)),
            None => c,
        };
        let g = e.pass_all(
            argv,
            if style is JavaCall {
                1
            } else {
                0
            },
        );
        let h = if rets.len() > 0 {
            g.note(Kind::BindRet, rows::two_row(s, var_name(f, self.scope, rets[0])))
        } else {
            g
        };
        h.resolve(
            style,
            match d {
                Some(d) => d,
                None => Seq::empty(),
            },
        )
    }

    pub open spec fn load(self, f: FunctionData, to: Name, source: Address, field: Name) -> Pen {
        if is_global(source) {
            self.site().note(
                Kind::LoadStatic,
                rows::four_row(self.base, to, "$globals"@, field),
            )
        } else {
            let (a, base) = self.address(f, source);
            a.site().note(Kind::LoadField, rows::four_row(self.base, to, base, field))
        }
    }

    /// A store; without a field the last offset is the accessor, and without an offset
    /// either there is nothing to store through.
    pub open spec fn store(self, f: FunctionData, dest: Address, field: Name, value: Exp) -> Pen {
        let (a, from) = self.exp_var(f, value);
        let s = self.base;
        if field.len() == 0 {
            if dest.offsets@.len() == 0 {
                a
            } else {
                let (b, base) = a.walk(
                    var_name(f, self.scope, dest.variable_ref),
                    dest.offsets@.drop_last(),
                );
                b.site().note(
                    Kind::StoreIndexConst,
                    rows::four_row(s, base, signed_decimal(dest.offsets@.last() as int), from),
                )
            }
        } else if is_global(dest) {
            a.site().note(Kind::StoreStatic, rows::four_row(s, "$globals"@, field, from))
        } else {
            let (b, base) = a.address(f, dest);
            b.site().note(Kind::StoreField, rows::four_row(s, base, field, from))
        }
    }

    pub open spec fn statement(self, f: FunctionData, st: Statement) -> Pen {
        match st {
            Statement::Assign { dest, sources } => {
                let (a, rs) = self.all_rhs(f, sources@);
                a.site().assign_all(var_name(f, self.scope, dest), rs)
            },
            Statement::Load { dest, source, field } => self.load(
                f,
                var_name(f, self.scope, dest),
                source,
                field@,
            ),
            Statement::Store { address, field, value } => self.store(f, address, field@, value),
            Statement::CallAssign { style, rets, args } => self.call(f, style, rets@, args@),
            Statement::Phi { dest, operands } => self.site().join_all(
                f,
                var_name(f, self.scope, dest),
                operands@,
            ),
            Statement::ParamFlow => self,
            Statement::Nop => self,
        }
    }

    /// The statements of block `b`, one after the other.
    pub open spec fn statements(self, f: FunctionData, b: nat, list: Seq<Statement>) -> Pen
        decreases list.len(),
    {
        if list.len() == 0 {
            self
        } else {
            let label = self.scope + "#"@ + decimal(b) + "."@ + decimal((list.len() - 1) as nat);
            self.statements(f, b, list.drop_last()).begin(label).statement(f, list.last())
        }
    }

    /// The statements of block `b` and its return; of several returned values the first
    /// is kept.
    pub open spec fn block(self, f: FunctionData, b: nat, block: BasicBlock) -> Pen {
        let a = self.statements(f, b, block.statements@);
        match block.terminator {
            Some(Terminator::Return { args }) => {
                let c = a.begin(self.scope + "#"@ + decimal(b) + ".ret"@);
                if args@.len() == 0 {
                    c
                } else {
                    let (d, v) = c.exp_var(f, args@[0]);
                    d.note(Kind::Ret, rows::two_row(self.proc, v))
                }
            },
            _ => a,
        }
    }

    pub open spec fn blocks(self, f: FunctionData, list: Seq<BasicBlock>) -> Pen
        decreases list.len(),
    {
        if list.len() == 0 {
            self
        } else {
            self.blocks(f, list.drop_last()).block(f, (list.len() - 1) as nat, list.last())
        }
    }

    pub open spec fn formals(self, n: nat) -> Pen
        decreases n,
    {
        if n == 0 {
            self
        } else {
            let i = (n - 1) as nat;
            self.formals(i).note(
                Kind::Formal,
                rows::indexed_row(self.proc, i as usize, param_name(self.scope, i)),
            )
        }
    }

    /// A function with a body: the procedure, its class, its formals and its blocks.
    pub open spec fn function(self, f: FunctionData, scope: Name) -> Pen {
        let a = (Pen { proc: f.name@, scope, line: 0, ..self }).note(
            Kind::Procedure,
            rows::one_row(f.name@),
        );
        let b = match declaring_type(f.name@) {
            Some(ty) => a.note(Kind::ProcType, rows::two_row(f.name@, ty)),
            None => a,
        };
        b.formals(f.params as nat).blocks(f, f.blocks@)
    }

    // -- what writing leaves alone ------------------------------------------------

    /// The same statement of the same procedure.
    pub open spec fn at(self, other: Pen) -> bool {
        &&& self.proc == other.proc
        &&& self.scope == other.scope
        &&& self.base == other.base
    }

    pub proof fn lemma_walk_keeps(self, from: Name, offsets: Seq<i64>)
        ensures
            self.walk(from, offsets).0.at(self),
        decreases offsets.len(),
    {
        if offsets.len() > 0 {
            self.lemma_walk_keeps(from, offsets.drop_last());
        }
    }

    pub proof fn lemma_rhs_keeps(self, f: FunctionData, e: Exp)
        ensures
            self.rhs(f, e).0.at(self),
    {
        if let Exp::AccessPath(a) = e {
            self.lemma_walk_keeps(var_name(f, self.scope, a.variable_ref), a.offsets@);
        }
    }

    pub proof fn lemma_exp_keeps(self, f: FunctionData, e: Exp)
        ensures
            self.exp_var(f, e).0.at(self),
    {
        self.lemma_rhs_keeps(f, e);
    }

    pub proof fn lemma_all_rhs_keep(self, f: FunctionData, es: Seq<Exp>)
        ensures
            self.all_rhs(f, es).0.at(self),
        decreases es.len(),
    {
        if es.len() > 0 {
            self.lemma_all_rhs_keep(f, es.drop_last());
            self.all_rhs(f, es.drop_last()).0.lemma_rhs_keeps(f, es.last());
        }
    }

    pub proof fn lemma_vars_keep(self, f: FunctionData, es: Seq<Exp>)
        ensures
            self.all_vars(f, es).0.at(self),
        decreases es.len(),
    {
        if es.len() > 0 {
            self.lemma_vars_keep(f, es.drop_last());
            self.all_vars(f, es.drop_last()).0.lemma_exp_keeps(f, es.last());
        }
    }

    pub proof fn lemma_operand_keeps(self, f: FunctionData, style: CallStyle)
        ensures
            self.operand(f, style).0.at(self),
    {
        if let CallStyle::FuncPtrCall { callee, signature } = style {
            self.lemma_walk_keeps(var_name(f, self.scope, callee.variable_ref), callee.offsets@);
        }
    }

    proof fn lemma_assign_keeps(self, to: Name, rs: Seq<Rhs>)
        ensures
            self.assign_all(to, rs).at(self),
        decreases rs.len(),
    {
        if rs.len() > 0 {
            self.lemma_assign_keeps(to, rs.drop_last());
        }
    }

    proof fn lemma_join_keeps(self, f: FunctionData, to: Name, vs: Seq<VariableRef>)
        ensures
            self.join_all(f, to, vs).at(self),
        decreases vs.len(),
    {
        if vs.len() > 0 {
            self.lemma_join_keeps(f, to, vs.drop_last());
        }
    }

    proof fn lemma_pass_keeps(self, args: Seq<Name>, shift: nat)
        ensures
            self.pass_all(args, shift).at(self),
        decreases args.len(),
    {
        if args.len() > 0 {
            self.lemma_pass_keeps(args.drop_last(), shift);
        }
    }

    proof fn lemma_call_all_keeps(self, targets: Seq<String>)
        ensures
            self.call_all(targets).at(self),
        decreases targets.len(),
    {
        if targets.len() > 0 {
            self.lemma_call_all_keeps(targets.drop_last());
        }
    }

    proof fn lemma_call_keeps(
        self,
        f: FunctionData,
        style: CallStyle,
        rets: Seq<VariableRef>,
        args: Seq<Exp>,
    )
        ensures
            self.call(f, style, rets, args).at(self),
    {
        let (a, argv) = self.all_vars(f, args);
        self.lemma_vars_keep(f, args);
        let (b, d) = a.operand(f, style);
        a.lemma_operand_keeps(f, style);
        let c = b.site();
        let e = match d {
            Some(d) => c.note(Kind::ActualArg, rows::indexed_row(self.base, 0, d)),
            None => c,
        };
        let shift: nat = if style is JavaCall {
            1
        } else {
            0
        };
        e.lemma_pass_keeps(argv, shift);
        let g = e.pass_all(argv, shift);
        let h = if rets.len() > 0 {
            g.note(Kind::BindRet, rows::two_row(self.base, var_name(f, self.scope, rets[0])))
        } else {
            g
        };
        if let CallStyle::DirectCall { targets } = style {
            h.lemma_call_all_keeps(targets@);
        }
    }

    pub proof fn lemma_statement_keeps(self, f: FunctionData, st: Statement)
        ensures
            self.statement(f, st).at(self),
    {
        match st {
            Statement::Assign { dest, sources } => {
                self.lemma_all_rhs_keep(f, sources@);
                let (a, rs) = self.all_rhs(f, sources@);
                a.site().lemma_assign_keeps(var_name(f, self.scope, dest), rs);
            },
            Statement::Load { dest, source, field } => {
                self.lemma_walk_keeps(var_name(f, self.scope, source.variable_ref),
                    source.offsets@);
            },
            Statement::Store { address, field, value } => {
                self.lemma_exp_keeps(f, value);
                let a = self.exp_var(f, value).0;
                let from = var_name(f, self.scope, address.variable_ref);
                a.lemma_walk_keeps(from, address.offsets@.drop_last());
                a.lemma_walk_keeps(from, address.offsets@);
            },
            Statement::CallAssign { style, rets, args } => {
                self.lemma_call_keeps(f, style, rets@, args@);
            },
            Statement::Phi { dest, operands } => {
                self.site().lemma_join_keeps(f, var_name(f, self.scope, dest), operands@);
            },
            _ => {},
        }
    }

    pub proof fn lemma_statements_keep(self, f: FunctionData, b: nat, list: Seq<Statement>)
        ensures
            self.statements(f, b, list).proc == self.proc,
            self.statements(f, b, list).scope == self.scope,
        decreases list.len(),
    {
        if list.len() > 0 {
            self.lemma_statements_keep(f, b, list.drop_last());
            let label = self.scope + "#"@ + decimal(b) + "."@ + decimal((list.len() - 1) as nat);
            self.statements(f, b, list.drop_last()).begin(label).lemma_statement_keeps(
                f,
                list.last(),
            );
        }
    }
}

// ---------------------------------------------------------------------------
// The writing
// ---------------------------------------------------------------------------

/// A right-hand side, resolved.
enum Operand {
    Var(String),
    Const(String),
    Object(String),
}

impl View for Operand {
    type V = Rhs;

    closed spec fn view(&self) -> Rhs {
        match *self {
            Operand::Var(v) => Rhs::Var(v@),
            Operand::Const(c) => Rhs::Const(c@),
            Operand::Object(t) => Rhs::Object(t@),
        }
    }
}

spec fn operands(v: Seq<Operand>) -> Seq<Rhs> {
    Seq::new(v.len(), |i: int| v[i]@)
}

spec fn texts(v: Seq<String>) -> Seq<Name> {
    Seq::new(v.len(), |i: int| v[i]@)
}

/// Writes the facts of functions into a ledger.
pub struct Scribe {
    ledger: Ledger,
    proc: String,
    scope: String,
    base: String,
    sub: usize,
    line: usize,
}

impl View for Scribe {
    type V = Pen;

    closed spec fn view(&self) -> Pen {
        Pen {
            proc: self.proc@,
            scope: self.scope@,
            base: self.base@,
            sub: self.sub as nat,
            line: self.line as nat,
            log: self.ledger@,
        }
    }
}

impl Scribe {
    pub open spec fn wf(&self) -> bool {
        &&& ledger::shapely(self@.log)
        &&& self@.sub <= self@.log.len()
        &&& self@.line <= self@.log.len()
    }

    /// A scribe for a ledger, at no function yet.
    pub fn new(ledger: Ledger) -> (r: Self)
        requires
            ledger::shapely(ledger@),
        ensures
            r.wf(),
            r@ == (Pen {
                proc: Seq::empty(),
                scope: Seq::empty(),
                base: Seq::empty(),
                sub: 0,
                line: 0,
                log: ledger@,
            }),
    {
        Scribe {
            ledger,
            proc: String::new(),
            scope: String::new(),
            base: String::new(),
            sub: 0,
            line: 0,
        }
    }

    /// The ledger with everything written.
    pub fn done(self) -> (r: Ledger)
        ensures
            r@ == self@.log,
    {
        self.ledger
    }

    fn record(&mut self, s: &str)
        requires
            old(self).wf(),
        ensures
            final(self).wf(),
            final(self)@ == old(self)@.record(s@),
    {
        self.ledger.note_placed(Kind::InProc, s, self.proc.as_str(), self.line);
        proof {
            self.ledger.lemma_len();
        }
        self.line = self.line + 1;
    }

    fn begin(&mut self, base: String)
        requires
            old(self).wf(),
        ensures
            final(self).wf(),
            final(self)@ == old(self)@.begin(base@),
    {
        self.base = base;
        self.sub = 0;
    }

    fn site(&mut self)
        requires
            old(self).wf(),
        ensures
            final(self).wf(),
            final(self)@ == old(self)@.site(),
    {
        let base = self.base.clone();
        self.record(base.as_str());
    }

    fn temp(&mut self) -> (r: (String, String))
        requires
            old(self).wf(),
        ensures
            final(self).wf(),
            final(self)@ == old(self)@.temp(),
            r.0@ == old(self)@.temp_label(),
            r.1@ == old(self)@.temp_var(),
    {
        let n = number(self.sub);
        let s = cat3(self.base.as_str(), "~", n.as_str());
        let v = cat3(cat("$t", n.as_str()).as_str(), "@", self.base.as_str());
        self.record(s.as_str());
        proof {
            self.ledger.lemma_len();
        }
        self.sub = self.sub + 1;
        (s, v)
    }

    fn var(&self, f: &FunctionData, v: &VariableRef) -> (r: String)
        ensures
            r@ == var_name(*f, self@.scope, *v),
    {
        let name = match &v.variable {
            Variable::Param(i) => cat("par", number(*i).as_str()),
            Variable::Local(i) => if *i < f.locals.len() {
                f.locals[*i].clone()
            } else {
                cat("local", number(*i).as_str())
            },
            Variable::GlobalHeap => "$heap".to_owned(),
        };
        match v.version {
            Some(n) => cat3(
                cat3(name.as_str(), "#", number(n).as_str()).as_str(),
                "@",
                self.scope.as_str(),
            ),
            None => cat3(name.as_str(), "@", self.scope.as_str()),
        }
    }

    fn walk(&mut self, from: String, offsets: &Vec<i64>, n: usize) -> (r: String)
        requires
            old(self).wf(),
            n <= offsets@.len(),
        ensures
            final(self).wf(),
            (final(self)@, r@) == old(self)@.walk(from@, offsets@.take(n as int)),
    {
        let ghost start = self@;
        let ghost from0 = from@;
        let mut cur = from;
        let mut i: usize = 0;
        while i < n
            invariant
                i <= n <= offsets@.len(),
                self.wf(),
                (self@, cur@) == start.walk(from0, offsets@.take(i as int)),
            decreases n - i,
        {
            proof {
                let t = offsets@.take(i + 1);
                assert(t.drop_last() =~= offsets@.take(i as int));
                assert(t.last() == offsets@[i as int]);
            }
            let c = signed(offsets[i]);
            let (s, t) = self.temp();
            self.ledger.note_four(
                Kind::LoadIndexConst,
                s.as_str(),
                t.as_str(),
                cur.as_str(),
                c.as_str(),
            );
            cur = t;
            i += 1;
        }
        cur
    }

    fn address(&mut self, f: &FunctionData, a: &Address) -> (r: String)
        requires
            old(self).wf(),
        ensures
            final(self).wf(),
            (final(self)@, r@) == old(self)@.address(*f, *a),
    {
        let from = self.var(f, &a.variable_ref);
        proof {
            assert(a.offsets@.take(a.offsets@.len() as int) =~= a.offsets@);
        }
        self.walk(from, &a.offsets, a.offsets.len())
    }

    fn rhs(&mut self, f: &FunctionData, e: &Exp) -> (r: Operand)
        requires
            old(self).wf(),
        ensures
            final(self).wf(),
            (final(self)@, r@) == old(self)@.rhs(*f, *e),
    {
        match e {
            Exp::Variable(v) => Operand::Var(self.var(f, v)),
            Exp::AccessPath(a) => Operand::Var(self.address(f, a)),
            Exp::Str(s) => Operand::Const(s.clone()),
            Exp::Bytes(b) => Operand::Const(cat("$bytes:", number(b.len()).as_str())),
            Exp::ObjectRef(o) => match o {
                CallObject::JavaObject(cls) => Operand::Object(cls.clone()),
                CallObject::LuaClass(cls) => Operand::Object(cls.clone()),
                CallObject::FunctionPtr(name) => {
                    self.ledger.note_one(Kind::Taken, name.as_str());
                    Operand::Object(cat("$fn:", name.as_str()))
                },
            },
        }
    }

    fn settle(&mut self, r: Operand) -> (v: String)
        requires
            old(self).wf(),
        ensures
            final(self).wf(),
            (final(self)@, v@) == old(self)@.settle(r@),
    {
        match r {
            Operand::Var(v) => v,
            Operand::Const(c) => {
                let (s, t) = self.temp();
                self.ledger.note_three(Kind::ConstAssign, s.as_str(), t.as_str(), c.as_str());
                t
            },
            Operand::Object(ty) => {
                let (s, t) = self.temp();
                let site = cat("l:", s.as_str());
                self.ledger.note_three(Kind::Alloc, s.as_str(), t.as_str(), site.as_str());
                self.ledger.note_two(Kind::AllocType, site.as_str(), ty.as_str());
                t
            },
        }
    }

    fn exp_var(&mut self, f: &FunctionData, e: &Exp) -> (r: String)
        requires
            old(self).wf(),
        ensures
            final(self).wf(),
            (final(self)@, r@) == old(self)@.exp_var(*f, *e),
    {
        let r = self.rhs(f, e);
        self.settle(r)
    }

    fn all_rhs(&mut self, f: &FunctionData, es: &Vec<Exp>) -> (r: Vec<Operand>)
        requires
            old(self).wf(),
        ensures
            final(self).wf(),
            (final(self)@, operands(r@)) == old(self)@.all_rhs(*f, es@),
    {
        let ghost start = self@;
        let mut r: Vec<Operand> = Vec::new();
        let mut i: usize = 0;
        proof {
            assert(operands(r@) =~= Seq::<Rhs>::empty());
        }
        while i < es.len()
            invariant
                i <= es@.len(),
                self.wf(),
                (self@, operands(r@)) == start.all_rhs(*f, es@.take(i as int)),
            decreases es@.len() - i,
        {
            proof {
                let t = es@.take(i + 1);
                assert(t.drop_last() =~= es@.take(i as int));
                assert(t.last() == es@[i as int]);
            }
            let ghost r0 = r@;
            let x = self.rhs(f, &es[i]);
            let ghost last = x@;
            r.push(x);
            proof {
                assert(operands(r@) =~= operands(r0).push(last));
            }
            i += 1;
        }
        proof {
            assert(es@.take(i as int) =~= es@);
        }
        r
    }

    fn all_vars(&mut self, f: &FunctionData, es: &Vec<Exp>) -> (r: Vec<String>)
        requires
            old(self).wf(),
        ensures
            final(self).wf(),
            (final(self)@, texts(r@)) == old(self)@.all_vars(*f, es@),
    {
        let ghost start = self@;
        let mut r: Vec<String> = Vec::new();
        let mut i: usize = 0;
        proof {
            assert(texts(r@) =~= Seq::<Name>::empty());
        }
        while i < es.len()
            invariant
                i <= es@.len(),
                self.wf(),
                (self@, texts(r@)) == start.all_vars(*f, es@.take(i as int)),
            decreases es@.len() - i,
        {
            proof {
                let t = es@.take(i + 1);
                assert(t.drop_last() =~= es@.take(i as int));
                assert(t.last() == es@[i as int]);
            }
            let ghost r0 = r@;
            let x = self.exp_var(f, &es[i]);
            let ghost last = x@;
            r.push(x);
            proof {
                assert(texts(r@) =~= texts(r0).push(last));
            }
            i += 1;
        }
        proof {
            assert(es@.take(i as int) =~= es@);
        }
        r
    }

    fn assign(&mut self, to: &String, r: &Operand, i: usize)
        requires
            old(self).wf(),
        ensures
            final(self).wf(),
            final(self)@ == old(self)@.assign(to@, r@, i as nat),
    {
        let s = self.base.clone();
        match r {
            Operand::Var(v) => {
                self.ledger.note_three(Kind::Mov, s.as_str(), to.as_str(), v.as_str());
            },
            Operand::Const(c) => {
                self.ledger.note_three(Kind::ConstAssign, s.as_str(), to.as_str(), c.as_str());
            },
            Operand::Object(ty) => {
                let site = cat3(cat("l:", s.as_str()).as_str(), ":", number(i).as_str());
                self.ledger.note_three(Kind::Alloc, s.as_str(), to.as_str(), site.as_str());
                self.ledger.note_two(Kind::AllocType, site.as_str(), ty.as_str());
            },
        }
    }

    fn assign_all(&mut self, to: &String, rs: &Vec<Operand>)
        requires
            old(self).wf(),
        ensures
            final(self).wf(),
            final(self)@ == old(self)@.assign_all(to@, operands(rs@)),
    {
        let ghost start = self@;
        let ghost all = operands(rs@);
        let mut i: usize = 0;
        while i < rs.len()
            invariant
                i <= rs@.len(),
                all == operands(rs@),
                self.wf(),
                self@ == start.assign_all(to@, all.take(i as int)),
            decreases rs@.len() - i,
        {
            proof {
                let t = all.take(i + 1);
                assert(t.drop_last() =~= all.take(i as int));
                assert(t.last() == all[i as int]);
            }
            self.assign(to, &rs[i], i);
            i += 1;
        }
        proof {
            assert(all.take(i as int) =~= all);
        }
    }

    fn join_all(&mut self, f: &FunctionData, to: &String, vs: &Vec<VariableRef>)
        requires
            old(self).wf(),
        ensures
            final(self).wf(),
            final(self)@ == old(self)@.join_all(*f, to@, vs@),
    {
        let ghost start = self@;
        let mut i: usize = 0;
        while i < vs.len()
            invariant
                i <= vs@.len(),
                self.wf(),
                self@ == start.join_all(*f, to@, vs@.take(i as int)),
                self@.base == start.base,
                self@.scope == start.scope,
            decreases vs@.len() - i,
        {
            proof {
                let t = vs@.take(i + 1);
                assert(t.drop_last() =~= vs@.take(i as int));
                assert(t.last() == vs@[i as int]);
            }
            let v = self.var(f, &vs[i]);
            let s = self.base.clone();
            self.ledger.note_three(Kind::Mov, s.as_str(), to.as_str(), v.as_str());
            i += 1;
        }
        proof {
            assert(vs@.take(i as int) =~= vs@);
        }
    }

    fn pass_all(&mut self, args: &Vec<String>, shift: usize)
        requires
            old(self).wf(),
            shift <= 1,
        ensures
            final(self).wf(),
            final(self)@ == old(self)@.pass_all(texts(args@), shift as nat),
            final(self)@.base == old(self)@.base,
            final(self)@.scope == old(self)@.scope,
    {
        let ghost start = self@;
        let ghost all = texts(args@);
        let n: usize = args.len();
        let mut i: usize = 0;
        while i < n
            invariant
                i <= n,
                n == args@.len(),
                all == texts(args@),
                shift <= 1,
                self.wf(),
                self@ == start.pass_all(all.take(i as int), shift as nat),
                self@.base == start.base,
                self@.scope == start.scope,
            decreases n - i,
        {
            proof {
                let t = all.take(i + 1);
                assert(t.drop_last() =~= all.take(i as int));
                assert(t.last() == all[i as int]);
            }
            let s = self.base.clone();
            self.ledger.note_indexed(Kind::ActualArg, s.as_str(), i + shift, args[i].as_str());
            i += 1;
        }
        proof {
            assert(all.take(i as int) =~= all);
        }
    }

    fn call_all(&mut self, targets: &Vec<String>)
        requires
            old(self).wf(),
        ensures
            final(self).wf(),
            final(self)@ == old(self)@.call_all(targets@),
    {
        let ghost start = self@;
        let mut i: usize = 0;
        while i < targets.len()
            invariant
                i <= targets@.len(),
                self.wf(),
                self@ == start.call_all(targets@.take(i as int)),
                self@.base == start.base,
            decreases targets@.len() - i,
        {
            proof {
                let t = targets@.take(i + 1);
                assert(t.drop_last() =~= targets@.take(i as int));
                assert(t.last() == targets@[i as int]);
            }
            let s = self.base.clone();
            self.ledger.note_two(Kind::DirectCall, s.as_str(), targets[i].as_str());
            i += 1;
        }
        proof {
            assert(targets@.take(i as int) =~= targets@);
        }
    }

    fn operand(&mut self, f: &FunctionData, style: &CallStyle) -> (r: Option<String>)
        requires
            old(self).wf(),
        ensures
            final(self).wf(),
            final(self)@ == old(self)@.operand(*f, *style).0,
            match r {
                Some(d) => old(self)@.operand(*f, *style).1 == Some(d@),
                None => old(self)@.operand(*f, *style).1 is None,
            },
    {
        match style {
            CallStyle::JavaCall { receiver, .. } => Some(self.var(f, receiver)),
            CallStyle::LuaCall { receiver, .. } => Some(self.var(f, receiver)),
            CallStyle::FuncPtrCall { callee, .. } => Some(self.address(f, callee)),
            _ => None,
        }
    }

    fn resolve(&mut self, style: &CallStyle, d: &String)
        requires
            old(self).wf(),
        ensures
            final(self).wf(),
            final(self)@ == old(self)@.resolve(*style, d@),
    {
        let s = self.base.clone();
        match style {
            CallStyle::DirectCall { targets } => {
                self.call_all(targets);
            },
            CallStyle::JavaCall { cls, simple_name, descriptor, .. } => {
                let sig = cat(
                    cat3(cls.as_str(), "->", simple_name.as_str()).as_str(),
                    descriptor.as_str(),
                );
                self.ledger.note_three(Kind::VirtualCall, s.as_str(), d.as_str(), sig.as_str());
                self.ledger.note_three(
                    Kind::ClassSite,
                    cls.as_str(),
                    simple_name.as_str(),
                    descriptor.as_str(),
                );
            },
            CallStyle::LuaCall { method, .. } => {
                let sig = cat("lua->", method.as_str());
                self.ledger.note_three(Kind::VirtualCall, s.as_str(), d.as_str(), sig.as_str());
                self.ledger.note_one(Kind::LuaSite, method.as_str());
            },
            CallStyle::FuncPtrCall { signature, .. } => {
                let own = match signature {
                    Some(sig) => sig.clone(),
                    None => String::new(),
                };
                let sig = show_pointer_sig(&own);
                self.ledger.note_three(Kind::VirtualCall, s.as_str(), d.as_str(), sig.as_str());
                self.ledger.note_one(Kind::PointerSite, own.as_str());
            },
            CallStyle::Unknown => {},
        }
    }

    fn call(&mut self, f: &FunctionData, style: &CallStyle, rets: &Vec<VariableRef>,
        args: &Vec<Exp>)
        requires
            old(self).wf(),
        ensures
            final(self).wf(),
            final(self)@ == old(self)@.call(*f, *style, rets@, args@),
    {
        let ghost start = self@;
        proof {
            start.lemma_vars_keep(*f, args@);
        }
        let argv = self.all_vars(f, args);
        let ghost a = self@;
        proof {
            a.lemma_operand_keeps(*f, *style);
        }
        let dispatch = self.operand(f, style);
        self.site();
        let s = self.base.clone();
        let d = match dispatch {
            Some(d) => {
                self.ledger.note_indexed(Kind::ActualArg, s.as_str(), 0, d.as_str());
                d
            },
            None => String::new(),
        };
        let shift: usize = match style {
            CallStyle::JavaCall { .. } => 1,
            _ => 0,
        };
        self.pass_all(&argv, shift);
        if rets.len() > 0 {
            let r = self.var(f, &rets[0]);
            self.ledger.note_two(Kind::BindRet, s.as_str(), r.as_str());
        }
        proof {
            assert(d@ =~= (match start.all_vars(*f, args@).0.operand(*f, *style).1 {
                Some(d) => d,
                None => Seq::empty(),
            }));
        }
        self.resolve(style, &d);
    }

    fn load(&mut self, f: &FunctionData, to: &String, source: &Address, field: &String)
        requires
            old(self).wf(),
        ensures
            final(self).wf(),
            final(self)@ == old(self)@.load(*f, to@, *source, field@),
    {
        if tells_global(source) {
            self.site();
            let s = self.base.clone();
            self.ledger.note_four(
                Kind::LoadStatic,
                s.as_str(),
                to.as_str(),
                "$globals",
                field.as_str(),
            );
        } else {
            proof {
                self@.lemma_walk_keeps(var_name(*f, self@.scope, source.variable_ref),
                    source.offsets@);
            }
            let base = self.address(f, source);
            self.site();
            let s = self.base.clone();
            self.ledger.note_four(
                Kind::LoadField,
                s.as_str(),
                to.as_str(),
                base.as_str(),
                field.as_str(),
            );
        }
    }

    fn store(&mut self, f: &FunctionData, dest: &Address, field: &String, value: &Exp)
        requires
            old(self).wf(),
        ensures
            final(self).wf(),
            final(self)@ == old(self)@.store(*f, *dest, field@, *value),
    {
        proof {
            self@.lemma_exp_keeps(*f, *value);
        }
        let from = self.exp_var(f, value);
        let ghost a = self@;
        if field.as_str().unicode_len() == 0 {
            let n: usize = dest.offsets.len();
            if n == 0 {
                return;
            }
            proof {
                assert(dest.offsets@.take(n - 1) =~= dest.offsets@.drop_last());
                a.lemma_walk_keeps(
                    var_name(*f, a.scope, dest.variable_ref),
                    dest.offsets@.drop_last(),
                );
            }
            let start = self.var(f, &dest.variable_ref);
            let base = self.walk(start, &dest.offsets, n - 1);
            let off = signed(dest.offsets[n - 1]);
            self.site();
            let s = self.base.clone();
            self.ledger.note_four(
                Kind::StoreIndexConst,
                s.as_str(),
                base.as_str(),
                off.as_str(),
                from.as_str(),
            );
        } else if tells_global(dest) {
            self.site();
            let s = self.base.clone();
            self.ledger.note_four(
                Kind::StoreStatic,
                s.as_str(),
                "$globals",
                field.as_str(),
                from.as_str(),
            );
        } else {
            proof {
                a.lemma_walk_keeps(var_name(*f, a.scope, dest.variable_ref), dest.offsets@);
            }
            let base = self.address(f, dest);
            self.site();
            let s = self.base.clone();
            self.ledger.note_four(
                Kind::StoreField,
                s.as_str(),
                base.as_str(),
                field.as_str(),
                from.as_str(),
            );
        }
    }

    fn add_statement(&mut self, f: &FunctionData, st: &Statement)
        requires
            old(self).wf(),
        ensures
            final(self).wf(),
            final(self)@ == old(self)@.statement(*f, *st),
    {
        match st {
            Statement::Assign { dest, sources } => {
                let to = self.var(f, dest);
                let rs = self.all_rhs(f, sources);
                self.site();
                self.assign_all(&to, &rs);
            },
            Statement::Load { dest, source, field } => {
                let to = self.var(f, dest);
                self.load(f, &to, source, field);
            },
            Statement::Store { address, field, value } => {
                self.store(f, address, field, value);
            },
            Statement::CallAssign { style, rets, args } => {
                self.call(f, style, rets, args);
            },
            Statement::Phi { dest, operands } => {
                let to = self.var(f, dest);
                self.site();
                self.join_all(f, &to, operands);
            },
            Statement::ParamFlow => {},
            Statement::Nop => {},
        }
    }

    fn label(&self, b: usize, tail: &str) -> (r: String)
        ensures
            r@ == self@.scope + "#"@ + decimal(b as nat) + tail@,
    {
        cat(cat3(self.scope.as_str(), "#", number(b).as_str()).as_str(), tail)
    }

    fn add_statements(&mut self, f: &FunctionData, b: usize, list: &Vec<Statement>)
        requires
            old(self).wf(),
        ensures
            final(self).wf(),
            final(self)@ == old(self)@.statements(*f, b as nat, list@),
    {
        let ghost start = self@;
        let mut i: usize = 0;
        while i < list.len()
            invariant
                i <= list@.len(),
                self.wf(),
                self@ == start.statements(*f, b as nat, list@.take(i as int)),
                self@.scope == start.scope,
                self@.proc == start.proc,
            decreases list@.len() - i,
        {
            proof {
                let t = list@.take(i + 1);
                assert(t.drop_last() =~= list@.take(i as int));
                assert(t.last() == list@[i as int]);
            }
            let tail = cat(".", number(i).as_str());
            let label = self.label(b, tail.as_str());
            proof {
                assert(label@ =~= start.scope + "#"@ + decimal(b as nat) + "."@ + decimal(
                    i as nat));
                self@.begin(label@).lemma_statement_keeps(*f, list@[i as int]);
            }
            self.begin(label);
            self.add_statement(f, &list[i]);
            i += 1;
        }
        proof {
            assert(list@.take(i as int) =~= list@);
        }
    }

    fn add_block(&mut self, f: &FunctionData, b: usize, block: &BasicBlock)
        requires
            old(self).wf(),
        ensures
            final(self).wf(),
            final(self)@ == old(self)@.block(*f, b as nat, *block),
    {
        proof {
            self@.lemma_statements_keep(*f, b as nat, block.statements@);
        }
        self.add_statements(f, b, &block.statements);
        match &block.terminator {
            Some(Terminator::Return { args }) => {
                let label = self.label(b, ".ret");
                self.begin(label);
                if args.len() > 0 {
                    proof {
                        self@.lemma_exp_keeps(*f, args@[0]);
                    }
                    let v = self.exp_var(f, &args[0]);
                    let p = self.proc.clone();
                    self.ledger.note_two(Kind::Ret, p.as_str(), v.as_str());
                }
            },
            _ => {},
        }
    }

    fn add_formals(&mut self, n: usize)
        requires
            old(self).wf(),
        ensures
            final(self).wf(),
            final(self)@ == old(self)@.formals(n as nat),
    {
        let ghost start = self@;
        let mut i: usize = 0;
        while i < n
            invariant
                i <= n,
                self.wf(),
                self@ == start.formals(i as nat),
                self@.scope == start.scope,
                self@.proc == start.proc,
            decreases n - i,
        {
            let v = cat3(cat("par", number(i).as_str()).as_str(), "@", self.scope.as_str());
            let p = self.proc.clone();
            self.ledger.note_indexed(Kind::Formal, p.as_str(), i, v.as_str());
            i += 1;
        }
    }

    /// Write the facts of a function with a body, its names qualified by `scope`.
    pub fn add_function(&mut self, f: &FunctionData, scope: String)
        requires
            old(self).wf(),
        ensures
            final(self).wf(),
            final(self)@ == old(self)@.function(*f, scope@),
    {
        self.proc = f.name.clone();
        self.scope = scope;
        self.line = 0;
        self.ledger.note_one(Kind::Procedure, f.name.as_str());
        match find_class(&f.name) {
            Some(ty) => {
                self.ledger.note_two(Kind::ProcType, f.name.as_str(), ty.as_str());
            },
            None => {},
        }
        self.add_formals(f.params);
        let ghost start = self@;
        let mut i: usize = 0;
        while i < f.blocks.len()
            invariant
                i <= f.blocks@.len(),
                self.wf(),
                self@ == start.blocks(*f, f.blocks@.take(i as int)),
            decreases f.blocks@.len() - i,
        {
            proof {
                let t = f.blocks@.take(i + 1);
                assert(t.drop_last() =~= f.blocks@.take(i as int));
                assert(t.last() == f.blocks@[i as int]);
            }
            self.add_block(f, i, &f.blocks[i]);
            i += 1;
        }
        proof {
            assert(f.blocks@.take(i as int) =~= f.blocks@);
        }
    }
}

fn tells_global(a: &Address) -> (r: bool)
    ensures
        r == is_global(*a),
{
    match &a.variable_ref.variable {
        Variable::GlobalHeap => a.offsets.len() == 0,
        _ => false,
    }
}

pub fn show_pointer_sig(sig: &String) -> (r: String)
    ensures
        r@ == pointer_sig(sig@),
{
    if sig.as_str().unicode_len() == 0 {
        "$fnptr".to_owned()
    } else {
        cat3("$fnptr(", sig.as_str(), ")")
    }
}

/// The class that a qualified name declares a method in.
fn find_class(name: &String) -> (r: Option<String>)
    ensures
        match r {
            Some(ty) => declaring_type(name@) == Some(ty@),
            None => declaring_type(name@) is None,
        },
{
    let s = name.as_str();
    let n: usize = s.unicode_len();
    let mut i: usize = 0;
    while i < n
        invariant
            i <= n,
            n == name@.len(),
            s@ == name@,
            forall|j: int| 0 <= j < i ==> !arrow_at(name@, j),
        decreases n - i,
    {
        if i + 1 < n && s.get_char(i) == '-' && s.get_char(i + 1) == '>' {
            proof {
                assert(first_arrow(name@, i as int));
                let k = choose|k: int| first_arrow(name@, k);
                assert(first_arrow(name@, k));
                assert(k == i);
            }
            let r = s.substring_char(0, i).to_owned();
            proof {
                assert(r@ =~= name@.take(i as int));
            }
            return Some(r);
        }
        i += 1;
    }
    None
}

} // verus!
