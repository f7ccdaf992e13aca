//! The front end, from the intermediate representation to the result of the analysis.
use std::collections::{BTreeMap, BTreeSet};

use hybrid_inlining_paper::access_path::Suffix;
use hybrid_inlining_paper::analysis::run_hybrid;
use hybrid_inlining_paper::cir::{
    Address, BasicBlock, CallObject, CallStyle, CirProgram, Exp, FunctionData, Statement,
    Terminator, Variable, VariableRef, VirtualMethodTable,
};
use hybrid_inlining_paper::ctadl::{
    import_dir, import_edb, restrict, store_root, Options, Pass, Preprocess, Translator,
};
use hybrid_inlining_paper::example;
use hybrid_inlining_paper::ir::{Proc, Program, Var};

const OBJ: &str = "LObj;";
const X: &str = "LX;";
const Y: &str = "LY;";
const Z: &str = "LZ;";

const Y_POLY: &str = "LY;->poly(LObj;)LObj;";
const Z_POLY: &str = "LZ;->poly(LObj;)LObj;";
const ID: &str = "LFacade;->id(LX;)LX;";
const FOO: &str = "LFacade;->foo(LX;LObj;)LObj;";
const MID: &str = "LFacade;->mid(LX;LObj;)LObj;";
const BAR1: &str = "LFacade;->bar1(LObj;)LObj;";
const BAR2: &str = "LFacade;->bar2(LObj;)LObj;";
const SERVICE: &str = "LFacade;->service()V";

/// The name and descriptor of `poly`, at the callsite and in the method table.
const POLY: (&str, &str) = ("poly", "(LObj;)LObj;");

/// Builds a function of one block. With versions, parameters are anchored on entry and
/// every use carries a version, as after single assignment.
struct Body {
    f: FunctionData,
    statements: Vec<Statement>,
    versions: bool,
}

fn plain(variable: Variable) -> VariableRef {
    VariableRef { variable, version: None }
}

impl Body {
    fn new(name: &str, params: usize, versions: bool) -> Body {
        let f = FunctionData { name: name.to_string(), params, locals: vec![], blocks: vec![] };
        let mut b = Body { f, statements: vec![], versions };
        if versions {
            b.statements.push(Statement::ParamFlow);
            for i in 0..params {
                let dest = b.param(i);
                let sources = vec![Exp::Variable(plain(Variable::Param(i)))];
                b.statements.push(Statement::Assign { dest, sources });
            }
        }
        b
    }

    fn version(&self, n: usize) -> Option<usize> {
        if self.versions {
            Some(n)
        } else {
            None
        }
    }

    fn param(&self, i: usize) -> VariableRef {
        VariableRef { variable: Variable::Param(i), version: self.version(0) }
    }

    fn local(&mut self, name: &str) -> VariableRef {
        let i = match self.f.locals.iter().position(|l| l == name) {
            Some(i) => i,
            None => {
                self.f.locals.push(name.to_string());
                self.f.locals.len() - 1
            }
        };
        VariableRef { variable: Variable::Local(i), version: self.version(1) }
    }

    fn assign(&mut self, dest: VariableRef, sources: Vec<Exp>) {
        self.statements.push(Statement::Assign { dest, sources });
    }

    fn call(&mut self, style: CallStyle, rets: Vec<VariableRef>, args: Vec<VariableRef>) {
        let args = args.into_iter().map(Exp::Variable).collect();
        self.statements.push(Statement::CallAssign { style, rets, args });
    }

    fn ret(mut self, args: Vec<Exp>) -> FunctionData {
        let terminator = Some(Terminator::Return { args });
        self.f.blocks.push(BasicBlock { statements: self.statements, terminator });
        self.f
    }
}

fn direct(callee: &str) -> CallStyle {
    CallStyle::DirectCall { targets: vec![callee.to_string()] }
}

fn object(cls: &str) -> Exp {
    Exp::ObjectRef(CallObject::JavaObject(cls.to_string()))
}

fn figure1_cir(versions: bool) -> (CirProgram, VirtualMethodTable) {
    let mut functions = Vec::new();

    let b = Body::new(Y_POLY, 2, versions);
    let obj = b.param(1);
    functions.push(b.ret(vec![Exp::Variable(obj)]));

    let mut b = Body::new(Z_POLY, 2, versions);
    let t = b.local("t14");
    b.assign(t, vec![object(OBJ)]);
    let t = b.local("t14");
    functions.push(b.ret(vec![Exp::Variable(t)]));

    let mut b = Body::new(ID, 2, versions);
    let (tv, x) = (b.local("tv"), b.param(1));
    b.assign(tv, vec![Exp::Variable(x)]);
    let tv = b.local("tv");
    functions.push(b.ret(vec![Exp::Variable(tv)]));

    let mut b = Body::new(FOO, 3, versions);
    let (tx, this, x) = (b.local("tx"), b.param(0), b.param(1));
    b.call(direct(ID), vec![tx], vec![this, x]);
    let (receiver, r25, obj) = (b.local("tx"), b.local("r25"), b.param(2));
    let style = CallStyle::JavaCall {
        receiver,
        cls: X.to_string(),
        simple_name: POLY.0.to_string(),
        descriptor: POLY.1.to_string(),
    };
    b.call(style, vec![r25], vec![obj]);
    let r25 = b.local("r25");
    functions.push(b.ret(vec![Exp::Variable(r25)]));

    let mut b = Body::new(MID, 3, versions);
    let (r28, this, x, obj) = (b.local("r28"), b.param(0), b.param(1), b.param(2));
    b.call(direct(FOO), vec![r28], vec![this, x, obj]);
    let r28 = b.local("r28");
    functions.push(b.ret(vec![Exp::Variable(r28)]));

    for (name, cls, temp, res) in [(BAR1, Y, "t31", "r31"), (BAR2, Z, "t34", "r34")] {
        let mut b = Body::new(name, 2, versions);
        let t = b.local(temp);
        b.assign(t, vec![object(cls)]);
        let (r, this, t, obj) = (b.local(res), b.param(0), b.local(temp), b.param(1));
        b.call(direct(MID), vec![r], vec![this, t, obj]);
        let r = b.local(res);
        functions.push(b.ret(vec![Exp::Variable(r)]));
    }

    let mut b = Body::new(SERVICE, 1, versions);
    let first = b.local("first");
    b.assign(first, vec![object(OBJ)]);
    for (callee, res) in [(BAR1, "second"), (BAR2, "third")] {
        let (r, this, first) = (b.local(res), b.param(0), b.local("first"));
        b.call(direct(callee), vec![r], vec![this, first]);
    }
    functions.push(b.ret(vec![]));

    let mut methods = Vec::new();
    let mut hierarchy = Vec::new();
    for (cls, imp) in [(Y, Y_POLY), (Z, Z_POLY)] {
        methods.push((
            cls.to_string(),
            POLY.0.to_string(),
            POLY.1.to_string(),
            imp.to_string(),
        ));
        hierarchy.push((cls.to_string(), vec![X.to_string()]));
    }
    (CirProgram { functions }, VirtualMethodTable::Java { methods, hierarchy })
}

/// The program under some passes. Of the passes only single assignment shows in this
/// code: nothing in it is dead, fused or left to propagate.
fn translate_with(pre: Preprocess) -> Program {
    let (cir, vmt) = figure1_cir(pre.plan().contains(&Pass::Ssa));
    let mut t = Translator::new(Options { preprocess: pre, ..Options::default() });
    t.add_import(cir, &vmt);
    t.finish()
}

/// A local of `proc`, under the front end's naming scheme.
fn v(local: &str, proc: &str) -> Var {
    Var::from(format!("{local}@{proc}"))
}

/// The one definition of `local` in `proc`, whatever its version.
fn sole_version(prog: &Program, local: &str, proc: &str) -> Var {
    let plain = v(local, proc);
    let versioned = format!("{local}#");
    let suffix = format!("@{proc}");
    let mut found: BTreeSet<Var> = prog
        .mov
        .iter()
        .map(|(_, to, _)| to.clone())
        .chain(prog.alloc.iter().map(|(_, to, _)| to.clone()))
        .chain(prog.const_assign.iter().map(|(_, to, _)| to.clone()))
        .chain(prog.bind_ret.iter().map(|(_, to)| to.clone()))
        .filter(|var| {
            let n = var.to_string();
            *var == plain || (n.starts_with(&versioned) && n.ends_with(&suffix))
        })
        .collect();
    assert_eq!(
        found.len(),
        1,
        "`{local}` in {proc} should have exactly one definition, found {found:?}"
    );
    found.pop_first().unwrap()
}

#[test]
fn structure_survives_the_translation() {
    let prog = translate_with(Preprocess::none());

    let procs: BTreeSet<String> = prog.procedure.iter().map(|(p,)| p.to_string()).collect();
    assert_eq!(procs.len(), 8, "every function with a body is a procedure");
    assert!(procs.contains(SERVICE));

    let entries: Vec<String> = prog.entry.iter().map(|(p,)| p.to_string()).collect();
    assert_eq!(entries, [SERVICE.to_string()]);

    let (vcall, recv, sig) = {
        assert_eq!(prog.virtual_call.len(), 1, "one virtual call: tx.poly(obj)");
        let (s, r, g) = prog.virtual_call[0].clone();
        (s, r, g)
    };
    assert_eq!(recv, v("tx", FOO));
    assert!(
        prog.actual_arg.contains(&(vcall.clone(), 0, recv)),
        "the receiver occupies argument slot 0"
    );
    assert!(
        prog.actual_arg.contains(&(vcall, 1, Var::from(format!("par2@{FOO}")))),
        "`obj`, foo's par_2, shifts up to slot 1 to make room for it"
    );

    let targets: BTreeSet<String> = prog
        .lookup
        .iter()
        .filter(|(_, s, _)| *s == sig)
        .map(|(_, _, p)| p.to_string())
        .collect();
    assert_eq!(targets, BTreeSet::from([Y_POLY.to_string(), Z_POLY.to_string()]));

    let allocated: BTreeSet<String> = prog.alloc_type.iter().map(|(_, t)| t.to_string()).collect();
    assert_eq!(
        allocated,
        BTreeSet::from([OBJ.to_string(), Y.to_string(), Z.to_string()])
    );
}

#[test]
fn figure1_result_survives_the_translation() {
    check_figure1_result(Preprocess::none());
}

#[test]
fn the_default_preprocessing_preserves_the_result() {
    assert_eq!(Options::default().preprocess, Preprocess::ctadl());
    check_figure1_result(Preprocess::ctadl());
}

fn check_figure1_result(pre: Preprocess) {
    let prog = translate_with(pre);
    let h = run_hybrid(&prog, 4);

    let pt = |local: &str| -> BTreeSet<String> {
        h.points_to(&Proc::from(SERVICE), sole_version(&prog, local, SERVICE))
            .iter()
            .map(|x| x.to_string())
            .collect()
    };

    let first = pt("first");
    assert_eq!(first.len(), 1, "one allocation site");

    assert_eq!(pt("second"), first);

    let third = pt("third");
    assert_eq!(third.len(), 1);
    assert!(
        third.is_disjoint(&first),
        "third = {third:?} must not contain first = {first:?}"
    );

    let mut by_holder: BTreeMap<String, BTreeSet<String>> = BTreeMap::new();
    for (holder, _, callee) in h.dispatches() {
        by_holder.entry(holder.to_string()).or_default().insert(callee.to_string());
    }
    assert_eq!(
        by_holder.get(BAR1),
        Some(&BTreeSet::from([Y_POLY.to_string()])),
        "bar1 resolves poly to Y only"
    );
    assert_eq!(
        by_holder.get(BAR2),
        Some(&BTreeSet::from([Z_POLY.to_string()])),
        "bar2 resolves poly to Z only"
    );
}

// -- the parts one by one ---------------------------------------------------------

fn one_function(name: &str, params: usize, locals: &[&str], body: Vec<Statement>) -> CirProgram {
    CirProgram {
        functions: vec![FunctionData {
            name: name.to_string(),
            params,
            locals: locals.iter().map(|l| l.to_string()).collect(),
            blocks: vec![BasicBlock { statements: body, terminator: Some(Terminator::Other) }],
        }],
    }
}

fn local(i: usize) -> VariableRef {
    plain(Variable::Local(i))
}

fn translated(cir: CirProgram) -> Program {
    import_edb(cir, &VirtualMethodTable::Unknown, Options::default())
}

#[test]
fn offsets_are_walked_one_load_at_a_time() {
    let prog = translated(one_function(
        "f",
        0,
        &["x", "y"],
        vec![
            Statement::Load {
                dest: local(1),
                source: Address { variable_ref: local(0), offsets: vec![8, -4] },
                field: "g".to_string(),
            },
            Statement::Store {
                address: Address { variable_ref: local(0), offsets: vec![16] },
                field: String::new(),
                value: Exp::Variable(local(1)),
            },
            Statement::Store {
                address: Address { variable_ref: local(0), offsets: vec![] },
                field: String::new(),
                value: Exp::Variable(local(1)),
            },
        ],
    ));
    let loads: Vec<String> = prog
        .load_index_const
        .iter()
        .map(|(s, to, base, c)| {
            format!("{} {} {} {}", s.to_string(), to.to_string(), base.to_string(), c.to_string())
        })
        .collect();
    assert_eq!(loads, ["f#0.0~0 $t0@f#0.0 x@f 8", "f#0.0~1 $t1@f#0.0 $t0@f#0.0 -4"]);
    let (s, to, base, f) = &prog.load_field[0];
    assert_eq!(
        [s.to_string(), to.to_string(), base.to_string(), f.to_string()],
        ["f#0.0", "y@f", "$t1@f#0.0", "g"]
    );
    assert_eq!(prog.store_index_const.len(), 1);
    assert_eq!(prog.store_index_const[0].2.to_string(), "16");
    let lines: Vec<(String, usize)> =
        prog.in_proc.iter().map(|(s, _, n)| (s.to_string(), *n)).collect();
    assert_eq!(
        lines,
        [
            ("f#0.0~0".to_string(), 0),
            ("f#0.0~1".to_string(), 1),
            ("f#0.0".to_string(), 2),
            ("f#0.1".to_string(), 3),
        ]
    );
}

#[test]
fn globals_are_static_fields() {
    let heap = || Address { variable_ref: plain(Variable::GlobalHeap), offsets: vec![] };
    let prog = translated(one_function(
        "f",
        0,
        &["x"],
        vec![
            Statement::Load { dest: local(0), source: heap(), field: "g".to_string() },
            Statement::Store { address: heap(), field: "g".to_string(), value: Exp::Str("k".into()) },
            Statement::Assign {
                dest: local(7),
                sources: vec![
                    Exp::Bytes(vec![1, 2, 3]),
                    object("T"),
                    Exp::Variable(plain(Variable::GlobalHeap)),
                ],
            },
        ],
    ));
    assert_eq!(prog.load_static[0].2.to_string(), "$globals");
    assert_eq!(prog.store_static[0].3.to_string(), "$t0@f#0.1");
    let consts: Vec<String> = prog.const_assign.iter().map(|(_, _, c)| c.to_string()).collect();
    assert_eq!(consts, ["$bytes:3", "k"].map(String::from).into_iter().rev().collect::<Vec<_>>());
    assert_eq!(prog.alloc[0].2.to_string(), "l:f#0.2:1");
    assert_eq!(prog.mov[0].1.to_string(), "local7@f");
    assert_eq!(prog.mov[0].2.to_string(), "$heap@f");
}

#[test]
fn a_call_through_a_pointer_reaches_what_had_its_address_taken() {
    let taken = Exp::ObjectRef(CallObject::FunctionPtr("g".to_string()));
    let call = |signature: Option<&str>| Statement::CallAssign {
        style: CallStyle::FuncPtrCall {
            callee: Address { variable_ref: local(0), offsets: vec![] },
            signature: signature.map(String::from),
        },
        rets: vec![local(1), local(0)],
        args: vec![taken_again()],
    };
    let prog = translated(one_function(
        "f",
        0,
        &["p", "r"],
        vec![
            Statement::Assign { dest: local(0), sources: vec![taken] },
            call(None),
            call(Some("i32")),
        ],
    ));
    let lookups: Vec<String> = prog
        .lookup
        .iter()
        .map(|(t, s, p)| format!("{} {} {}", t.to_string(), s.to_string(), p.to_string()))
        .collect();
    assert_eq!(lookups, ["$fn:g $fnptr g", "$fn:g $fnptr(i32) g"]);
    assert_eq!(prog.bind_ret.len(), 2, "only the first result of each call is kept");
    assert!(prog.actual_arg.iter().all(|(_, i, _)| *i == 0), "nothing shifts");
    assert_eq!(prog.entry.len(), 1);
}

fn taken_again() -> Exp {
    Exp::Variable(local(1))
}

fn lua_or_java(prog: &Program) -> Vec<String> {
    prog.lookup
        .iter()
        .map(|(t, s, p)| format!("{} {} {}", t.to_string(), s.to_string(), p.to_string()))
        .collect()
}

fn java_call(cls: &str) -> Statement {
    Statement::CallAssign {
        style: CallStyle::JavaCall {
            receiver: local(0),
            cls: cls.to_string(),
            simple_name: "m".to_string(),
            descriptor: "()".to_string(),
        },
        rets: vec![],
        args: vec![],
    }
}

fn method(cls: &str, imp: &str) -> (String, String, String, String) {
    (cls.to_string(), "m".to_string(), "()".to_string(), imp.to_string())
}

#[test]
fn a_superclass_comes_before_an_interface() {
    let vmt = VirtualMethodTable::Java {
        methods: vec![method("Super", "Super.m"), method("AnInterface", "AnInterface.m")],
        hierarchy: vec![(
            "C".to_string(),
            vec!["Super".to_string(), "AnInterface".to_string()],
        )],
    };
    let prog = import_edb(one_function("f", 0, &["x"], vec![java_call("C")]), &vmt, Options::default());
    assert_eq!(lua_or_java(&prog), ["C C->m() Super.m"]);
}

#[test]
fn the_nearest_declaration_is_inherited_and_the_last_one_stands() {
    let vmt = VirtualMethodTable::Java {
        methods: vec![
            method("Top", "Top.m"),
            method("Mid", "Mid.old"),
            method("Mid", "Mid.m"),
        ],
        hierarchy: vec![
            ("Leaf".to_string(), vec!["Mid".to_string()]),
            ("Mid".to_string(), vec!["Top".to_string()]),
            ("Top".to_string(), vec!["Leaf".to_string()]),
        ],
    };
    let prog = import_edb(one_function("f", 0, &["x"], vec![java_call("Mid")]), &vmt, Options::default());
    assert_eq!(
        lua_or_java(&prog),
        ["Leaf Mid->m() Mid.m", "Mid Mid->m() Mid.m", "Top Mid->m() Top.m"]
    );
}

#[test]
fn an_unknown_class_falls_back_to_every_declaration() {
    let vmt = || VirtualMethodTable::Java {
        methods: vec![method("A", "A.m"), method("B", "B.m")],
        hierarchy: vec![],
    };
    let cir = || one_function("f", 0, &["x"], vec![java_call("Unshipped")]);
    let with = import_edb(cir(), &vmt(), Options::default());
    assert_eq!(lua_or_java(&with), ["A Unshipped->m() A.m", "B Unshipped->m() B.m"]);
    let without = import_edb(
        cir(),
        &vmt(),
        Options { cha_fallback: false, ..Options::default() },
    );
    assert!(without.lookup.is_empty());
}

#[test]
fn a_lua_call_goes_by_name_alone() {
    let vmt = VirtualMethodTable::Lua {
        functions: vec![
            ("A".to_string(), "m".to_string(), "A.m".to_string()),
            ("B".to_string(), "n".to_string(), "B.n".to_string()),
        ],
        hierarchy: vec![("B".to_string(), vec!["A".to_string()])],
    };
    let call = Statement::CallAssign {
        style: CallStyle::LuaCall { receiver: local(0), method: "m".to_string() },
        rets: vec![],
        args: vec![Exp::Variable(local(0)), Exp::Variable(local(0))],
    };
    let prog = import_edb(one_function("f", 0, &["x"], vec![call]), &vmt, Options::default());
    assert_eq!(lua_or_java(&prog), ["A lua->m A.m"]);
    let slots: Vec<usize> = prog.actual_arg.iter().map(|(_, i, _)| *i).collect();
    assert_eq!(slots, [0, 1], "the receiver is argument zero already");
    assert_eq!(prog.direct_subtype.len(), 1);
}

#[test]
fn imports_merge_and_compact_names_count_them() {
    let mut t = Translator::new(Options { compact_names: true, ..Options::default() });
    for name in ["f", "g"] {
        let mut cir = one_function(name, 1, &["x"], vec![Statement::Nop]);
        cir.functions.insert(
            0,
            FunctionData { name: "declared".to_string(), params: 0, locals: vec![], blocks: vec![] },
        );
        t.add_import(cir, &VirtualMethodTable::Native);
    }
    let prog = t.finish();
    let formals: Vec<String> = prog.formal.iter().map(|(_, _, v)| v.to_string()).collect();
    assert_eq!(formals, ["par0@0:1", "par0@1:1"]);
    assert_eq!(prog.procedure.len(), 2, "a function without a body is no procedure");
    assert!(prog.proc_type.is_empty());
}

#[test]
fn joins_are_moves_and_classes_come_from_qualified_names() {
    let phi = Statement::Phi { dest: local(0), operands: vec![local(1), local(2)] };
    let prog = translated(one_function("LA;->f()V", 0, &["x", "y", "z"], vec![phi]));
    assert_eq!(prog.mov.len(), 2);
    assert_eq!(prog.proc_type[0].1.to_string(), "LA;");
}

#[test]
fn the_store_is_found_below_the_state_directory() {
    let some = |s: &str| Some(s.to_string());
    assert_eq!(store_root(some("/state"), some("/home/a")), "/state/ctadl");
    assert_eq!(store_root(None, some("/home/a")), "/home/a/.local/state/ctadl");
    assert_eq!(store_root(None, None), "./ctadl");
    assert_eq!(import_dir("/state/ctadl", "app"), "/state/ctadl/imports/app");
    assert_eq!(import_dir("/state/ctadl/", "/elsewhere"), "/elsewhere");
}

#[test]
fn the_passes_run_in_a_fixed_order() {
    assert_eq!(
        Preprocess::ctadl().plan(),
        [Pass::DeadTemps, Pass::Coalesce, Pass::Ssa, Pass::CopyProp]
    );
    assert!(Preprocess::none().plan().is_empty());
    assert_eq!(Preprocess::ssa_only().plan(), [Pass::Ssa]);
}

#[test]
fn restricting_keeps_the_largest_procedures_and_what_mentions_only_those() {
    let prog = example::figure1();
    let largest = restrict(&prog, 1);
    let procs: Vec<String> = largest.procedure.iter().map(|(p,)| p.to_string()).collect();
    assert_eq!(procs.len(), 1);
    assert!(largest.in_proc.iter().all(|(_, q, _)| q.to_string() == procs[0]));
    assert!(largest.direct_call.is_empty(), "what it calls is gone");
    assert_eq!(largest.lookup, prog.lookup);
    assert_eq!(largest.alloc_type, prog.alloc_type);
    let all = restrict(&prog, 100);
    assert_eq!(all.in_proc, prog.in_proc);
    assert_eq!(all.direct_call, prog.direct_call);
    assert_eq!(all.mov, prog.mov);
    assert!(restrict(&prog, 0).procedure.is_empty());
}

#[test]
fn a_restricted_program_names_no_bound_of_its_own() {
    let mut prog = example::figure1();
    prog.paths = vec![(Suffix::empty(),)];
    assert!(restrict(&prog, 100).paths.is_empty());
    assert!(restrict(&prog, 0).paths.is_empty());
}

#[test]
fn a_tie_goes_to_the_name_that_comes_first() {
    let mut prog = Program::default();
    prog.procedure = vec![(Proc::from("b"),), (Proc::from("a"),), (Proc::from("c"),)];
    prog.in_proc = vec![
        ("s1".into(), Proc::from("b"), 0),
        ("s2".into(), Proc::from("a"), 0),
        ("s3".into(), Proc::from("c"), 0),
        ("s4".into(), Proc::from("c"), 1),
    ];
    let two = restrict(&prog, 2);
    assert_eq!(two.procedure, [(Proc::from("a"),), (Proc::from("c"),)]);
    let sites: Vec<String> = two.in_proc.iter().map(|(s, _, _)| s.to_string()).collect();
    assert_eq!(sites, ["s2", "s3", "s4"]);
}
