//! The analysis end to end, on small programs written out as facts.
use std::collections::BTreeSet;

use hybrid_inlining_paper::access_path::{
    AccessPath, Accessor, Base, Constraint, CritId, PtVal, Summary,
};
use hybrid_inlining_paper::analysis::{run_hybrid, HybridAnalysis};
use hybrid_inlining_paper::ir::{Alloc, Const, Field, Proc, Program, Sig, Stmt, Type, Var};
use hybrid_inlining_paper::{example, families, figure5};

fn p(x: &str) -> Proc {
    x.into()
}

fn pt(h: &HybridAnalysis, proc_: &str, v: &str) -> BTreeSet<String> {
    h.points_to(&p(proc_), Var::from(v))
        .iter()
        .map(|x| x.to_string())
        .collect()
}

fn rendered(summaries: &[(Proc, Summary)], proc_: &str) -> Vec<String> {
    summaries
        .iter()
        .filter(|(q, _)| q == &p(proc_))
        .flat_map(|(_, s)| s.iter().map(|c| c.to_string()))
        .collect()
}

fn as_set<T: Ord>(v: Vec<T>) -> BTreeSet<T> {
    v.into_iter().collect()
}

fn set(items: &[&str]) -> BTreeSet<String> {
    items.iter().map(|s| s.to_string()).collect()
}

#[test]
fn id_publishes_exactly_figure_2b() {
    let h = run_hybrid(&example::figure1(), 4);
    assert_eq!(
        rendered(&h.summaries(), "FacadeImpl.id"),
        ["ret@FacadeImpl.id ⊇ par_1@FacadeImpl.id"]
    );
}

#[test]
fn published_summaries_never_mention_a_local() {
    let h = run_hybrid(&example::figure1(), 4);
    for (owner, summary) in h.summaries() {
        for constraint in &summary {
            for path in constraint.paths() {
                assert!(
                    path.base.is_symbolic(),
                    "local root in summary of {}: {}",
                    owner.to_string(),
                    constraint.to_string()
                );
            }
        }
    }
}

#[test]
fn k_zero_reproduces_figure_2_exactly() {
    let h = run_hybrid(&example::figure1(), 0);
    let summaries = h.summaries();
    let want: Vec<(&str, Vec<&str>)> = vec![
        (
            "FacadeImpl.bar1",
            vec!["ret@FacadeImpl.bar1 ⊇ par_1@FacadeImpl.bar1", "ret@FacadeImpl.bar1 ⊇ {l14}"],
        ),
        (
            "FacadeImpl.bar2",
            vec!["ret@FacadeImpl.bar2 ⊇ par_1@FacadeImpl.bar2", "ret@FacadeImpl.bar2 ⊇ {l14}"],
        ),
        (
            "FacadeImpl.foo",
            vec!["ret@FacadeImpl.foo ⊇ par_2@FacadeImpl.foo", "ret@FacadeImpl.foo ⊇ {l14}"],
        ),
        ("FacadeImpl.id", vec!["ret@FacadeImpl.id ⊇ par_1@FacadeImpl.id"]),
        (
            "FacadeImpl.mid",
            vec!["ret@FacadeImpl.mid ⊇ par_2@FacadeImpl.mid", "ret@FacadeImpl.mid ⊇ {l14}"],
        ),
        ("Y.poly", vec!["ret@Y.poly ⊇ par_1@Y.poly"]),
        ("Z.poly", vec!["ret@Z.poly ⊇ {l14}"]),
    ];
    let got: Vec<String> = summaries.iter().map(|(q, _)| q.to_string()).collect();
    let named: Vec<String> = want.iter().map(|(q, _)| q.to_string()).collect();
    assert_eq!(got, named);
    for (q, lines) in &want {
        assert_eq!(&rendered(&summaries, q), lines);
    }
}

#[test]
fn k_zero_top_summarizes_the_critical_call_at_its_origin() {
    let h = run_hybrid(&example::figure1(), 0);
    let c0 = CritId::origin("L25");
    assert_eq!(
        as_set(h.callees_of(&p("FacadeImpl.foo"), &c0)),
        BTreeSet::from([p("Y.poly"), p("Z.poly")]),
        "without context both implementations must be admitted"
    );
    assert!(as_set(h.placeholders(&p("FacadeImpl.foo"))).is_empty());
}

fn c(chain: &[&str]) -> CritId {
    let mut id = CritId::origin("L25");
    for site in chain {
        id = id.push(&Stmt::from(*site));
    }
    id
}

#[test]
fn service_verifies_both_assertions() {
    let h = run_hybrid(&example::figure1(), 4);

    let first = pt(&h, "FacadeImpl.service", "first");
    let second = pt(&h, "FacadeImpl.service", "second");
    let third = pt(&h, "FacadeImpl.service", "third");

    assert_eq!(first, set(&["{l37}"]));
    assert_eq!(second, set(&["{l37}"]), "assert(first == second)");
    assert_eq!(third, set(&["{l14}"]), "assert(first != third)");
    assert!(first.is_disjoint(&third));
}

#[test]
fn foo_and_mid_defer_the_critical_call() {
    let h = run_hybrid(&example::figure1(), 4);
    let summaries = h.summaries();

    assert_eq!(
        rendered(&summaries, "FacadeImpl.foo"),
        [
            "ret@FacadeImpl.foo ⊇ ⟨L25⟩:res",
            "⟨L25⟩:arg0 ⊇ par_1@FacadeImpl.foo",
            "⟨L25⟩:arg1 ⊇ par_2@FacadeImpl.foo",
        ]
    );
    assert_eq!(
        as_set(h.placeholders(&p("FacadeImpl.foo"))),
        BTreeSet::from([c(&[])])
    );

    assert_eq!(
        rendered(&summaries, "FacadeImpl.mid"),
        [
            "ret@FacadeImpl.mid ⊇ ⟨L25@L28⟩:res",
            "⟨L25@L28⟩:arg0 ⊇ par_1@FacadeImpl.mid",
            "⟨L25@L28⟩:arg1 ⊇ par_2@FacadeImpl.mid",
        ]
    );
    assert_eq!(
        as_set(h.placeholders(&p("FacadeImpl.mid"))),
        BTreeSet::from([c(&["L28"])])
    );
}

#[test]
fn bar1_and_bar2_match_figures_3c_and_3f() {
    let h = run_hybrid(&example::figure1(), 4);
    let summaries = h.summaries();

    assert_eq!(
        rendered(&summaries, "FacadeImpl.bar1"),
        ["ret@FacadeImpl.bar1 ⊇ par_1@FacadeImpl.bar1"]
    );
    assert_eq!(
        rendered(&summaries, "FacadeImpl.bar2"),
        ["ret@FacadeImpl.bar2 ⊇ {l14}"]
    );
    assert!(as_set(h.placeholders(&p("FacadeImpl.bar1"))).is_empty());
    assert!(as_set(h.placeholders(&p("FacadeImpl.bar2"))).is_empty());
}

#[test]
fn the_spurious_call_edge_is_never_derived() {
    let h = run_hybrid(&example::figure1(), 4);

    assert_eq!(
        as_set(h.callees_of(&p("FacadeImpl.bar1"), &c(&["L28", "L31b"]))),
        BTreeSet::from([p("Y.poly")])
    );
    assert_eq!(
        as_set(h.callees_of(&p("FacadeImpl.bar2"), &c(&["L28", "L34b"]))),
        BTreeSet::from([p("Z.poly")])
    );

    for (holder, id, callee) in h.dispatches() {
        let via_bar1 =
            holder.as_ref() == "FacadeImpl.bar1" || id.chain.iter().any(|s| s.as_ref() == "L31b");
        assert!(
            !(via_bar1 && callee.as_ref() == "Z.poly"),
            "spurious edge {}: {} → {}",
            holder.to_string(),
            id.to_string(),
            callee.to_string()
        );
    }
}

#[test]
fn the_receiver_is_what_blocks_propagation() {
    let h = run_hybrid(&example::figure1(), 4);
    let blocked: BTreeSet<(String, String)> = h
        .blocked
        .iter()
        .map(|(q, id)| (q.to_string(), id.to_string()))
        .collect();

    assert!(blocked.contains(&("FacadeImpl.foo".into(), "⟨L25⟩".into())));
    assert!(blocked.contains(&("FacadeImpl.mid".into(), "⟨L25@L28⟩".into())));
    assert!(
        !blocked
            .iter()
            .any(|(q, _)| q == "FacadeImpl.bar1" || q == "FacadeImpl.bar2")
    );
}

#[test]
fn resolution_happens_inside_the_one_fixpoint() {
    let h = run_hybrid(&example::figure1(), 4);
    let c2 = c(&["L28", "L31b"]);

    assert!(
        h.resolve
            .contains(&(p("FacadeImpl.bar1"), c2.clone(), p("Y.poly")))
    );
    assert!(h.edge.contains(&(
        p("FacadeImpl.bar1"),
        AccessPath::crit_ret(c2.clone()),
        AccessPath::crit_slot(c2.clone(), 1),
    )));
    assert_eq!(
        rendered(&h.summaries(), "FacadeImpl.bar1"),
        ["ret@FacadeImpl.bar1 ⊇ par_1@FacadeImpl.bar1"]
    );
}

#[test]
fn a_tight_k_limit_still_gets_the_right_answer() {
    let h = run_hybrid(&example::figure1(), 2);
    assert_eq!(pt(&h, "FacadeImpl.service", "second"), set(&["{l37}"]));
    assert_eq!(pt(&h, "FacadeImpl.service", "third"), set(&["{l14}"]));
    assert_eq!(h.dispatches().len(), 2, "no depth-3 duplicates at k = 2");
}

#[test]
fn a_monomorphic_virtual_call_is_devirtualized_not_deferred() {
    let mut prog = Program::default();
    prog.procedure = vec![(p("Y.poly"),), (p("caller"),)];
    prog.entry = vec![(p("caller"),)];
    prog.lookup = vec![(Type::from("Y"), Sig::from("poly(Obj)"), p("Y.poly"))];

    prog.formal = vec![
        (p("Y.poly"), 0, Var::from("this@Y.poly")),
        (p("Y.poly"), 1, Var::from("obj@Y.poly")),
        (p("caller"), 0, Var::from("this@caller")),
        (p("caller"), 1, Var::from("recv")),
        (p("caller"), 2, Var::from("arg")),
    ];
    prog.ret = vec![
        (p("Y.poly"), Var::from("obj@Y.poly")),
        (p("caller"), Var::from("r")),
    ];
    prog.in_proc = vec![(Stmt::from("C1"), p("caller"), 0)];
    prog.virtual_call = vec![(Stmt::from("C1"), Var::from("recv"), Sig::from("poly(Obj)"))];
    prog.actual_arg = vec![
        (Stmt::from("C1"), 0, Var::from("recv")),
        (Stmt::from("C1"), 1, Var::from("arg")),
    ];
    prog.bind_ret = vec![(Stmt::from("C1"), Var::from("r"))];

    let h = run_hybrid(&prog, 4);
    assert!(h.critical.is_empty(), "single-target site is not critical");
    assert_eq!(h.eff_direct.len(), 1, "it is an effectively direct call");
    assert!(as_set(h.placeholders(&p("caller"))).is_empty());
    assert_eq!(
        rendered(&h.summaries(), "caller"),
        ["ret@caller ⊇ par_2@caller"],
        "the callee was inlined outright"
    );
}

#[test]
fn a_recursive_summary_is_just_a_fixpoint() {
    let mut prog = Program::default();
    prog.procedure = vec![(p("rid"),)];
    prog.entry = vec![(p("rid"),)];
    prog.formal = vec![(p("rid"), 0, Var::from("x"))];
    prog.ret = vec![(p("rid"), Var::from("x")), (p("rid"), Var::from("t"))];
    prog.in_proc = vec![(Stmt::from("D1"), p("rid"), 0)];
    prog.direct_call = vec![(Stmt::from("D1"), p("rid"))];
    prog.actual_arg = vec![(Stmt::from("D1"), 0, Var::from("x"))];
    prog.bind_ret = vec![(Stmt::from("D1"), Var::from("t"))];

    let h = run_hybrid(&prog, 4);
    assert_eq!(rendered(&h.summaries(), "rid"), ["ret@rid ⊇ par_0@rid"]);
    assert!(
        h.pending.is_empty(),
        "no critical statements, so nothing to defer"
    );
}

fn recursive_program() -> Program {
    let mut prog = Program::default();
    prog.procedure = vec![(p("Y.poly"),), (p("Z.poly"),), (p("rec"),), (p("main"),)];
    prog.entry = vec![(p("main"),)];
    prog.lookup = vec![
        (Type::from("Y"), Sig::from("poly(Obj)"), p("Y.poly")),
        (Type::from("Z"), Sig::from("poly(Obj)"), p("Z.poly")),
    ];
    prog.alloc_type = vec![
        (Alloc::from("ly"), Type::from("Y")),
        (Alloc::from("lo"), Type::from("Obj")),
        (Alloc::from("l14"), Type::from("Obj")),
    ];

    prog.formal = vec![
        (p("Y.poly"), 0, Var::from("this@Y")),
        (p("Y.poly"), 1, Var::from("obj@Y")),
        (p("Z.poly"), 0, Var::from("this@Z")),
        (p("Z.poly"), 1, Var::from("obj@Z")),
        (p("rec"), 0, Var::from("x@rec")),
        (p("rec"), 1, Var::from("o@rec")),
        (p("main"), 0, Var::from("this@main")),
    ];
    prog.ret = vec![
        (p("Y.poly"), Var::from("obj@Y")),
        (p("Z.poly"), Var::from("z14")),
        (p("rec"), Var::from("o@rec")),
        (p("rec"), Var::from("r")),
    ];

    prog.in_proc = vec![
        (Stmt::from("Z1"), p("Z.poly"), 0),
        (Stmt::from("R1"), p("rec"), 0),
        (Stmt::from("R2"), p("rec"), 1),
        (Stmt::from("M1"), p("main"), 0),
        (Stmt::from("M2"), p("main"), 1),
        (Stmt::from("M3"), p("main"), 2),
    ];
    prog.alloc = vec![
        (Stmt::from("Z1"), Var::from("z14"), Alloc::from("l14")),
        (Stmt::from("M1"), Var::from("y"), Alloc::from("ly")),
        (Stmt::from("M2"), Var::from("o"), Alloc::from("lo")),
    ];

    prog.direct_call = vec![(Stmt::from("R1"), p("rec")), (Stmt::from("M3"), p("rec"))];
    prog.virtual_call = vec![(Stmt::from("R2"), Var::from("x@rec"), Sig::from("poly(Obj)"))];
    prog.actual_arg = vec![
        (Stmt::from("R1"), 0, Var::from("x@rec")),
        (Stmt::from("R1"), 1, Var::from("o@rec")),
        (Stmt::from("R2"), 0, Var::from("x@rec")),
        (Stmt::from("R2"), 1, Var::from("t")),
        (Stmt::from("M3"), 0, Var::from("y")),
        (Stmt::from("M3"), 1, Var::from("o")),
    ];
    prog.bind_ret = vec![
        (Stmt::from("R1"), Var::from("t")),
        (Stmt::from("R2"), Var::from("r")),
        (Stmt::from("M3"), Var::from("res")),
    ];
    prog
}

#[test]
fn the_k_limit_bounds_the_call_strings_of_a_recursive_program() {
    for k in 0..=4 {
        let h = run_hybrid(&recursive_program(), k);
        for (_, id) in &h.pending {
            assert!(id.depth() <= k, "k = {k} but {} has depth {}", id.to_string(), id.depth());
        }
        assert!(
            h.pending.iter().any(|(_, id)| id.depth() == k),
            "k = {k}: the recursion should reach the limit"
        );
        assert!(pt(&h, "main", "res").contains("{lo}"));
    }
}

#[test]
fn a_receiver_the_recursion_never_pins_falls_back_to_top() {
    let h = run_hybrid(&recursive_program(), 3);

    let reached: BTreeSet<String> = h
        .dispatches()
        .iter()
        .map(|(_, _, callee)| callee.to_string())
        .collect();
    assert!(reached.contains("Y.poly"));
    assert!(
        reached.contains("Z.poly"),
        "the k-limit forces every target inside rec"
    );
    assert_eq!(pt(&h, "main", "res"), set(&["{l14}", "{lo}"]));

    let at_main: BTreeSet<String> = h
        .dispatches()
        .iter()
        .filter(|(holder, ..)| holder.as_ref() == "main")
        .map(|(_, _, callee)| callee.to_string())
        .collect();
    assert_eq!(at_main, set(&["Y.poly"]));
}

#[test]
fn suffix_congruence_carries_a_store_through_an_alias() {
    let mut prog = Program::default();
    prog.procedure = vec![(p("through"),)];
    prog.entry = vec![(p("through"),)];
    prog.formal = vec![
        (p("through"), 0, Var::from("this")),
        (p("through"), 1, Var::from("a")),
        (p("through"), 2, Var::from("x")),
    ];
    prog.ret = vec![(p("through"), Var::from("y"))];
    prog.in_proc = vec![
        (Stmt::from("F1"), p("through"), 0),
        (Stmt::from("F2"), p("through"), 1),
        (Stmt::from("F3"), p("through"), 2),
    ];
    prog.mov = vec![(Stmt::from("F1"), Var::from("b"), Var::from("a"))];
    prog.store_field = vec![(
        Stmt::from("F2"),
        Var::from("a"),
        Field::from("f"),
        Var::from("x"),
    )];
    prog.load_field = vec![(
        Stmt::from("F3"),
        Var::from("y"),
        Var::from("b"),
        Field::from("f"),
    )];

    let h = run_hybrid(&prog, 4);
    assert_eq!(
        rendered(&h.summaries(), "through"),
        [
            "ret@through ⊇ par_1@through.f",
            "ret@through ⊇ par_2@through"
        ],
    );
}

#[test]
fn a_constant_index_behaves_like_a_field() {
    let mut prog = Program::default();
    prog.procedure = vec![(p("cell"),)];
    prog.entry = vec![(p("cell"),)];
    prog.formal = vec![
        (p("cell"), 0, Var::from("this")),
        (p("cell"), 1, Var::from("arr")),
        (p("cell"), 2, Var::from("x")),
    ];
    prog.ret = vec![(p("cell"), Var::from("y"))];
    prog.in_proc = vec![
        (Stmt::from("I1"), p("cell"), 0),
        (Stmt::from("I2"), p("cell"), 1),
    ];
    prog.store_index_const = vec![(
        Stmt::from("I1"),
        Var::from("arr"),
        Const::from("0"),
        Var::from("x"),
    )];
    prog.load_index_const = vec![(
        Stmt::from("I2"),
        Var::from("y"),
        Var::from("arr"),
        Const::from("0"),
    )];

    let h = run_hybrid(&prog, 4);
    assert_eq!(
        rendered(&h.summaries(), "cell"),
        ["ret@cell ⊇ par_1@cell[0]", "ret@cell ⊇ par_2@cell"],
    );

    let indexed = AccessPath::param("cell", 1).index("0");
    assert!(h.points.iter().any(|(q, w, v)| q == &p("cell")
        && w == &AccessPath::var("y")
        && v == &PtVal::Path(indexed.clone())));
    assert_eq!(indexed.to_string(), "par_1@cell[0]");
}

#[test]
fn every_published_constraint_is_well_formed() {
    let h = run_hybrid(&example::figure1(), 4);
    let prog = example::figure1();
    let sites: BTreeSet<&Alloc> = prog.alloc.iter().map(|(_, _, l)| l).collect();

    for (owner, summary) in h.summaries() {
        assert!(
            prog.procedure.iter().any(|(q,)| *q == owner),
            "summary for unknown proc {}",
            owner.to_string()
        );
        for constraint in &summary {
            if let Constraint::Alloc { sub, .. } = constraint {
                assert!(sites.contains(sub), "unknown allocation site {}", sub.to_string());
            }
        }
    }
}

#[test]
fn getp_and_setp_defer_their_map_access() {
    let h = run_hybrid(&figure5::program(), 4);
    let summaries = h.summaries();

    assert_eq!(
        rendered(&summaries, "getP"),
        [
            "ret@getP ⊇ ⟨L2⟩:res",
            "⟨L2⟩:arg0 ⊇ par_1@getP",
            "⟨L2⟩:arg1 ⊇ par_2@getP",
        ]
    );
    assert_eq!(
        rendered(&summaries, "setP"),
        [
            "⟨L5⟩:arg0 ⊇ par_1@setP",
            "⟨L5⟩:arg1 ⊇ par_2@setP",
            "⟨L5⟩:arg2 ⊇ par_3@setP",
        ]
    );
    assert_eq!(
        as_set(h.placeholders(&p("getP"))),
        BTreeSet::from([CritId::origin("L2")])
    );
    assert_eq!(
        as_set(h.placeholders(&p("setP"))),
        BTreeSet::from([CritId::origin("L5")])
    );

    let blocked: BTreeSet<String> = h
        .blocked
        .iter()
        .map(|(q, id)| format!("{}: {}", q.to_string(), id.to_string()))
        .collect();
    assert!(blocked.contains("getP: ⟨L2⟩"));
    assert!(blocked.contains("setP: ⟨L5⟩"));
}

#[test]
fn build_is_index_and_context_sensitive() {
    let h = run_hybrid(&figure5::program(), 4);

    assert_eq!(
        rendered(&h.summaries(), "build"),
        [
            "ret@build[\"old\"] ⊇ par_1@build[\"cur\"]",
            "ret@build ⊇ {l8}",
        ]
    );
    assert!(as_set(h.placeholders(&p("build"))).is_empty());

    assert_eq!(
        as_set(h.accessors_of(&p("build"), &CritId::origin("L2").push(&Stmt::from("L9b")))),
        BTreeSet::from([Accessor::Index(Const::from("\"cur\""))])
    );
    assert_eq!(
        as_set(h.accessors_of(&p("build"), &CritId::origin("L5").push(&Stmt::from("L9d")))),
        BTreeSet::from([Accessor::Index(Const::from("\"old\""))])
    );
}

#[test]
fn k_zero_loses_index_sensitivity_to_pi() {
    let h = run_hybrid(&figure5::program(), 0);

    assert_eq!(
        rendered(&h.summaries(), "getP"),
        ["ret@getP ⊇ par_1@getP[π]"]
    );
    assert_eq!(
        rendered(&h.summaries(), "build"),
        ["ret@build[π] ⊇ par_1@build[π]", "ret@build ⊇ {l8}"]
    );
    assert!(
        h.index_acc
            .iter()
            .all(|(_, _, acc)| *acc == Accessor::IndexUnknown)
    );
}

#[test]
fn an_index_that_is_not_a_constant_is_undecidable() {
    let mut prog = figure5::program();
    prog.const_assign.retain(|(s, ..)| s.as_ref() != "L9a");
    prog.alloc
        .push((Stmt::from("L9a"), Var::from("c_cur"), Alloc::from("lk")));
    prog.alloc_type.push((Alloc::from("lk"), Type::from("Obj")));

    let get = CritId::origin("L2").push(&Stmt::from("L9b"));
    let h = run_hybrid(&prog, 4);

    assert!(
        h.adequate.contains(&(p("build"), get.clone())),
        "no free variable reaches the index, so the context is adequate"
    );
    assert!(
        h.index_undecidable.contains(&(p("build"), get.clone())),
        "but the index is an allocation site, so it still cannot be pinned"
    );

    assert_eq!(
        as_set(h.accessors_of(&p("build"), &get)),
        BTreeSet::from([Accessor::IndexUnknown])
    );

    assert_eq!(
        as_set(h.accessors_of(&p("build"), &CritId::origin("L5").push(&Stmt::from("L9d")))),
        BTreeSet::from([Accessor::Index(Const::from("\"old\""))])
    );
}

#[test]
fn every_edb_relation_is_copied_into_the_analysis() {
    let mut prog = Program::default();

    prog.procedure = vec![(p("q"),)];
    prog.proc_type = vec![(p("q"), Type::from("T"))];
    prog.proc_sig = vec![(p("q"), Sig::from("g"))];
    prog.entry = vec![(p("q"),)];
    prog.in_proc = vec![(Stmt::from("s"), p("q"), 0)];
    prog.alloc = vec![(Stmt::from("s"), Var::from("x"), Alloc::from("l"))];
    prog.alloc_type = vec![(Alloc::from("l"), Type::from("T"))];
    prog.const_assign = vec![(Stmt::from("s"), Var::from("x"), Const::from("c"))];
    prog.mov = vec![(Stmt::from("s"), Var::from("x"), Var::from("y"))];
    prog.load_field = vec![(
        Stmt::from("s"),
        Var::from("x"),
        Var::from("y"),
        Field::from("f"),
    )];
    prog.store_field = vec![(
        Stmt::from("s"),
        Var::from("x"),
        Field::from("f"),
        Var::from("y"),
    )];
    prog.load_static = vec![(
        Stmt::from("s"),
        Var::from("x"),
        Type::from("T"),
        Field::from("f"),
    )];
    prog.store_static = vec![(
        Stmt::from("s"),
        Type::from("T"),
        Field::from("f"),
        Var::from("y"),
    )];
    prog.load_index_const = vec![(
        Stmt::from("s"),
        Var::from("x"),
        Var::from("y"),
        Const::from("c"),
    )];
    prog.store_index_const = vec![(
        Stmt::from("s"),
        Var::from("x"),
        Const::from("c"),
        Var::from("y"),
    )];
    prog.load_index_var = vec![(
        Stmt::from("s"),
        Var::from("x"),
        Var::from("y"),
        Var::from("i"),
    )];
    prog.store_index_var = vec![(
        Stmt::from("s"),
        Var::from("x"),
        Var::from("i"),
        Var::from("y"),
    )];
    prog.direct_call = vec![(Stmt::from("s"), p("q"))];
    prog.virtual_call = vec![(Stmt::from("s"), Var::from("x"), Sig::from("g"))];
    prog.actual_arg = vec![(Stmt::from("s"), 0, Var::from("x"))];
    prog.bind_ret = vec![(Stmt::from("s"), Var::from("x"))];
    prog.formal = vec![(p("q"), 0, Var::from("x"))];
    prog.ret = vec![(p("q"), Var::from("x"))];
    prog.direct_subtype = vec![(Type::from("T"), Type::from("U"))];
    prog.lookup = vec![(Type::from("T"), Sig::from("g"), p("q"))];

    let analysis = HybridAnalysis::for_program(&prog, 4);
    let copy = &analysis.program;
    let declared: Vec<(&str, usize)> = vec![
        ("procedure", prog.procedure.len()),
        ("proc_type", prog.proc_type.len()),
        ("proc_sig", prog.proc_sig.len()),
        ("entry", prog.entry.len()),
        ("in_proc", prog.in_proc.len()),
        ("alloc", prog.alloc.len()),
        ("alloc_type", prog.alloc_type.len()),
        ("const_assign", prog.const_assign.len()),
        ("mov", prog.mov.len()),
        ("load_field", prog.load_field.len()),
        ("store_field", prog.store_field.len()),
        ("load_static", prog.load_static.len()),
        ("store_static", prog.store_static.len()),
        ("load_index_const", prog.load_index_const.len()),
        ("store_index_const", prog.store_index_const.len()),
        ("load_index_var", prog.load_index_var.len()),
        ("store_index_var", prog.store_index_var.len()),
        ("direct_call", prog.direct_call.len()),
        ("virtual_call", prog.virtual_call.len()),
        ("actual_arg", prog.actual_arg.len()),
        ("bind_ret", prog.bind_ret.len()),
        ("formal", prog.formal.len()),
        ("ret", prog.ret.len()),
        ("direct_subtype", prog.direct_subtype.len()),
        ("lookup", prog.lookup.len()),
    ];
    let copied: Vec<(&str, usize)> = vec![
        ("procedure", copy.procedure.len()),
        ("proc_type", copy.proc_type.len()),
        ("proc_sig", copy.proc_sig.len()),
        ("entry", copy.entry.len()),
        ("in_proc", copy.in_proc.len()),
        ("alloc", copy.alloc.len()),
        ("alloc_type", copy.alloc_type.len()),
        ("const_assign", copy.const_assign.len()),
        ("mov", copy.mov.len()),
        ("load_field", copy.load_field.len()),
        ("store_field", copy.store_field.len()),
        ("load_static", copy.load_static.len()),
        ("store_static", copy.store_static.len()),
        ("load_index_const", copy.load_index_const.len()),
        ("store_index_const", copy.store_index_const.len()),
        ("load_index_var", copy.load_index_var.len()),
        ("store_index_var", copy.store_index_var.len()),
        ("direct_call", copy.direct_call.len()),
        ("virtual_call", copy.virtual_call.len()),
        ("actual_arg", copy.actual_arg.len()),
        ("bind_ret", copy.bind_ret.len()),
        ("formal", copy.formal.len()),
        ("ret", copy.ret.len()),
        ("direct_subtype", copy.direct_subtype.len()),
        ("lookup", copy.lookup.len()),
    ];
    assert_eq!(declared.len(), 25);
    assert!(declared.iter().all(|(_, n)| *n == 1));
    assert_eq!(copied, declared);
}

#[test]
fn a_chained_critical_resolves_from_what_actually_flows() {
    let mut prog = Program::default();
    prog.procedure = [
        (p("P.get"),),
        (p("Q.get"),),
        (p("Y.poly"),),
        (p("Z.poly"),),
        (p("main"),),
    ]
    .to_vec();
    prog.entry = vec![(p("main"),)];
    prog.lookup = vec![
        (Type::from("P"), Sig::from("get()"), p("P.get")),
        (Type::from("Q"), Sig::from("get()"), p("Q.get")),
        (Type::from("Y"), Sig::from("poly(Obj)"), p("Y.poly")),
        (Type::from("Z"), Sig::from("poly(Obj)"), p("Z.poly")),
    ];
    prog.alloc_type = vec![
        (Alloc::from("lp"), Type::from("P")),
        (Alloc::from("ly"), Type::from("Y")),
        (Alloc::from("lz"), Type::from("Z")),
        (Alloc::from("lo"), Type::from("Obj")),
        (Alloc::from("l14"), Type::from("Obj")),
    ];

    prog.formal = vec![
        (p("P.get"), 0, Var::from("this@P")),
        (p("Q.get"), 0, Var::from("this@Q")),
        (p("Y.poly"), 0, Var::from("this@Y")),
        (p("Y.poly"), 1, Var::from("obj@Y")),
        (p("Z.poly"), 0, Var::from("this@Z")),
        (p("Z.poly"), 1, Var::from("obj@Z")),
        (p("main"), 0, Var::from("this@main")),
    ];
    prog.ret = vec![
        (p("P.get"), Var::from("gy")),
        (p("Q.get"), Var::from("gz")),
        (p("Y.poly"), Var::from("obj@Y")),
        (p("Z.poly"), Var::from("z14")),
    ];
    prog.in_proc = vec![
        (Stmt::from("G1"), p("P.get"), 0),
        (Stmt::from("G2"), p("Q.get"), 0),
        (Stmt::from("Z1"), p("Z.poly"), 0),
        (Stmt::from("M1"), p("main"), 0),
        (Stmt::from("M2"), p("main"), 1),
        (Stmt::from("M3"), p("main"), 2),
        (Stmt::from("M4"), p("main"), 3),
    ];
    prog.alloc = vec![
        (Stmt::from("G1"), Var::from("gy"), Alloc::from("ly")),
        (Stmt::from("G2"), Var::from("gz"), Alloc::from("lz")),
        (Stmt::from("Z1"), Var::from("z14"), Alloc::from("l14")),
        (Stmt::from("M1"), Var::from("g"), Alloc::from("lp")),
        (Stmt::from("M3"), Var::from("o"), Alloc::from("lo")),
    ];
    prog.virtual_call = vec![
        (Stmt::from("M2"), Var::from("g"), Sig::from("get()")),
        (Stmt::from("M4"), Var::from("r"), Sig::from("poly(Obj)")),
    ];
    prog.actual_arg = vec![
        (Stmt::from("M2"), 0, Var::from("g")),
        (Stmt::from("M4"), 0, Var::from("r")),
        (Stmt::from("M4"), 1, Var::from("o")),
    ];
    prog.bind_ret = vec![
        (Stmt::from("M2"), Var::from("r")),
        (Stmt::from("M4"), Var::from("res")),
    ];

    let h = run_hybrid(&prog, 4);
    let a = CritId::origin("M2");
    let b = CritId::origin("M4");

    assert_eq!(as_set(h.callees_of(&p("main"), &a)), BTreeSet::from([p("P.get")]));
    assert_eq!(
        as_set(h.callees_of(&p("main"), &b)),
        BTreeSet::from([p("Y.poly")]),
        "the feeder is stuck here too, so it is not free: no fallback"
    );
    assert_eq!(pt(&h, "main", "res"), set(&["{lo}"]));
}

#[test]
fn a_feeder_that_outlives_the_k_limit_forces_top() {
    let mut prog = Program::default();
    prog.procedure = [
        (p("P.get"),),
        (p("Q.get"),),
        (p("Y.poly"),),
        (p("Z.poly"),),
        (p("helper"),),
        (p("mid"),),
        (p("main"),),
    ]
    .to_vec();
    prog.entry = vec![(p("main"),)];
    prog.lookup = vec![
        (Type::from("P"), Sig::from("get()"), p("P.get")),
        (Type::from("Q"), Sig::from("get()"), p("Q.get")),
        (Type::from("Y"), Sig::from("poly(Obj)"), p("Y.poly")),
        (Type::from("Z"), Sig::from("poly(Obj)"), p("Z.poly")),
    ];
    prog.alloc_type = vec![
        (Alloc::from("lp"), Type::from("P")),
        (Alloc::from("ly"), Type::from("Y")),
        (Alloc::from("lz"), Type::from("Z")),
        (Alloc::from("lho"), Type::from("Obj")),
        (Alloc::from("l14"), Type::from("Obj")),
    ];

    prog.formal = vec![
        (p("P.get"), 0, Var::from("this@P")),
        (p("Q.get"), 0, Var::from("this@Q")),
        (p("Y.poly"), 0, Var::from("this@Y")),
        (p("Y.poly"), 1, Var::from("obj@Y")),
        (p("Z.poly"), 0, Var::from("this@Z")),
        (p("Z.poly"), 1, Var::from("obj@Z")),
        (p("helper"), 0, Var::from("this@helper")),
        (p("helper"), 1, Var::from("z@helper")),
        (p("mid"), 0, Var::from("this@mid")),
        (p("mid"), 1, Var::from("g@mid")),
        (p("main"), 0, Var::from("this@main")),
    ];
    prog.ret = vec![
        (p("P.get"), Var::from("gy")),
        (p("Q.get"), Var::from("gz")),
        (p("Y.poly"), Var::from("obj@Y")),
        (p("Z.poly"), Var::from("z14")),
        (p("helper"), Var::from("b")),
        (p("mid"), Var::from("t")),
    ];
    prog.in_proc = vec![
        (Stmt::from("G1"), p("P.get"), 0),
        (Stmt::from("G2"), p("Q.get"), 0),
        (Stmt::from("Z1"), p("Z.poly"), 0),
        (Stmt::from("H1"), p("helper"), 0),
        (Stmt::from("B"), p("helper"), 1),
        (Stmt::from("A"), p("mid"), 0),
        (Stmt::from("N"), p("mid"), 1),
        (Stmt::from("M1"), p("main"), 0),
        (Stmt::from("M2"), p("main"), 1),
    ];
    prog.alloc = vec![
        (Stmt::from("G1"), Var::from("gy"), Alloc::from("ly")),
        (Stmt::from("G2"), Var::from("gz"), Alloc::from("lz")),
        (Stmt::from("Z1"), Var::from("z14"), Alloc::from("l14")),
        (Stmt::from("H1"), Var::from("ho"), Alloc::from("lho")),
        (Stmt::from("M1"), Var::from("y"), Alloc::from("lp")),
    ];
    prog.virtual_call = vec![
        (
            Stmt::from("B"),
            Var::from("z@helper"),
            Sig::from("poly(Obj)"),
        ),
        (Stmt::from("A"), Var::from("g@mid"), Sig::from("get()")),
    ];
    prog.direct_call = vec![(Stmt::from("N"), p("helper")), (Stmt::from("M2"), p("mid"))];
    prog.actual_arg = vec![
        (Stmt::from("B"), 0, Var::from("z@helper")),
        (Stmt::from("B"), 1, Var::from("ho")),
        (Stmt::from("A"), 0, Var::from("g@mid")),
        (Stmt::from("N"), 0, Var::from("this@mid")),
        (Stmt::from("N"), 1, Var::from("a")),
        (Stmt::from("M2"), 0, Var::from("this@main")),
        (Stmt::from("M2"), 1, Var::from("y")),
    ];
    prog.bind_ret = vec![
        (Stmt::from("B"), Var::from("b")),
        (Stmt::from("A"), Var::from("a")),
        (Stmt::from("N"), Var::from("t")),
        (Stmt::from("M2"), Var::from("res")),
    ];

    let tight = run_hybrid(&prog, 1);
    let b_at_mid = CritId::origin("B").push(&Stmt::from("N"));
    assert_eq!(
        as_set(tight.callees_of(&p("mid"), &b_at_mid)),
        BTreeSet::from([p("Y.poly"), p("Z.poly")]),
        "at the limit, with a feeder that is not: every target"
    );
    assert!(tight.top.contains(&(p("mid"), b_at_mid.clone())));
    assert_eq!(
        as_set(tight.callees_of(&p("main"), &CritId::origin("A").push(&Stmt::from("M2")))),
        BTreeSet::from([p("P.get")])
    );
    assert_eq!(pt(&tight, "main", "res"), set(&["{l14}", "{lho}"]));

    let loose = run_hybrid(&prog, 2);
    let b_at_main = b_at_mid.push(&Stmt::from("M2"));
    assert!(loose.top.is_empty(), "nothing has to summarize for every context at k = 2");
    assert_eq!(
        as_set(loose.callees_of(&p("main"), &b_at_main)),
        BTreeSet::from([p("Y.poly")])
    );
    assert_eq!(pt(&loose, "main", "res"), set(&["{lho}"]));
}

fn cascade_program(n: usize) -> Program {
    let mut prog = Program::default();
    let step = Sig::from("step()");

    prog.procedure.push((p("D.step"),));
    prog.lookup
        .push((Type::from("D"), step.clone(), p("D.step")));
    prog.formal.push((p("D.step"), 0, Var::from("this@D")));

    for i in 0..n {
        let proc_ = p(&format!("T{i}.step"));
        let site = Stmt::from(format!("A{i}"));
        let result = Var::from(format!("r@T{i}"));
        let site_alloc = Alloc::from(format!("l{}", i + 1));

        prog.procedure.push((proc_.clone(),));
        prog.lookup
            .push((Type::from(format!("T{i}")), step.clone(), proc_.clone()));
        prog.formal
            .push((proc_.clone(), 0, Var::from(format!("this@T{i}"))));
        prog.ret.push((proc_.clone(), result.clone()));
        prog.in_proc.push((site.clone(), proc_, 0));
        prog.alloc.push((site, result, site_alloc.clone()));
        prog.alloc_type
            .push((site_alloc, Type::from(format!("T{}", i + 1))));
    }

    prog.procedure.push((p("main"),));
    prog.entry.push((p("main"),));
    prog.formal.push((p("main"), 0, Var::from("this@main")));
    prog.in_proc.push((Stmt::from("M0"), p("main"), 0));
    prog.alloc
        .push((Stmt::from("M0"), Var::from("g0"), Alloc::from("l0")));
    prog.alloc_type.push((Alloc::from("l0"), Type::from("T0")));
    for i in 0..n {
        let site = Stmt::from(format!("S{i}"));
        prog.in_proc.push((site.clone(), p("main"), i + 1));
        prog.virtual_call
            .push((site.clone(), Var::from(format!("g{i}")), step.clone()));
        prog.actual_arg
            .push((site.clone(), 0, Var::from(format!("g{i}"))));
        prog.bind_ret.push((site, Var::from(format!("g{}", i + 1))));
    }
    prog
}

#[test]
fn a_cascade_of_decisions_is_one_fixpoint() {
    let size: usize = 24;
    let h = run_hybrid(&cascade_program(size), 4);

    for i in 0..size {
        assert_eq!(
            as_set(h.callees_of(&p("main"), &CritId::origin(format!("S{i}")))),
            BTreeSet::from([p(&format!("T{i}.step"))]),
            "S{i} should be pinned by the allocation S{} produced",
            i.wrapping_sub(1)
        );
    }
    assert_eq!(
        h.dispatches().len(),
        size,
        "exactly one callee per site: no fan-out anywhere in the cascade"
    );
}

#[test]
fn a_receiver_with_no_values_stays_put_and_dispatches_nothing() {
    let h = run_hybrid(&families::dead_receiver(), 4);
    let id = CritId::origin("S");

    assert!(
        h.points_to_path(&p("V"), &AccessPath::crit_slot(id.clone(), 0))
            .is_empty(),
        "premise: pt(receiver) should be empty"
    );

    assert!(
        h.pending.contains(&(p("V"), id.clone())),
        "the instance should still be pending in V"
    );
    assert!(
        !h.blocked.contains(&(p("V"), id.clone())),
        "an empty deciding operand cannot be blocked"
    );
    assert!(
        h.pending.iter().all(|(owner, _)| owner == &p("V")),
        "nothing should propagate to Entry: {:?}",
        h.pending
    );

    assert!(
        h.dispatches().is_empty(),
        "dead code must not admit call edges: {:?}",
        h.dispatches()
    );
    assert!(
        h.top.is_empty(),
        "an unblocked instance is never summarized for every context: {:?}",
        h.top
    );

    assert_eq!(as_set(h.placeholders(&p("V"))), BTreeSet::from([id]));
    assert!(as_set(h.placeholders(&p("Entry"))).is_empty());
}

#[test]
fn every_renamed_placeholder_is_pending_in_the_procedure_it_lands_in() {
    let cases: Vec<(&str, Program, usize)> = vec![
        ("figure1", example::figure1(), 4),
        ("figure5", figure5::program(), 4),
        ("chain(4)", families::chain(4, 2), 6),
        ("fanin(4)", families::fanin(4, 2), 3),
        ("branching(3)", families::branching(3, 2), 5),
        ("dead_receiver", families::dead_receiver(), 4),
    ];
    for (label, prog, k) in &cases {
        let h = run_hybrid(prog, *k);
        let pending: BTreeSet<(Proc, CritId)> = h.pending.iter().cloned().collect();
        for (site, _, to) in &h.root_map {
            let Some(id) = to.crit_id() else { continue };
            for (s, owner, _) in &h.program.in_proc {
                if s != site {
                    continue;
                }
                assert!(
                    pending.contains(&(owner.clone(), id.clone())),
                    "{label}: {} renames a placeholder to {} in {}, which does not hold it",
                    site.to_string(),
                    id.to_string(),
                    owner.to_string()
                );
            }
        }
    }
}

#[test]
fn a_callee_placeholder_is_renamed_into_the_resolving_caller() {
    let mut prog = Program::default();
    prog.procedure = [
        (p("P.get"),),
        (p("Q.get"),),
        (p("Y.hop"),),
        (p("Z.hop"),),
        (p("warm"),),
        (p("main"),),
    ]
    .to_vec();
    prog.entry = vec![(p("main"),), (p("warm"),)];
    prog.lookup = vec![
        (Type::from("P"), Sig::from("get(Obj)"), p("P.get")),
        (Type::from("Q"), Sig::from("get(Obj)"), p("Q.get")),
        (Type::from("Y"), Sig::from("hop()"), p("Y.hop")),
        (Type::from("Z"), Sig::from("hop()"), p("Z.hop")),
    ];
    prog.alloc_type = vec![
        (Alloc::from("lp"), Type::from("P")),
        (Alloc::from("ly"), Type::from("Y")),
        (Alloc::from("lyo"), Type::from("Obj")),
        (Alloc::from("lzo"), Type::from("Obj")),
        (Alloc::from("lw"), Type::from("Obj")),
    ];
    prog.formal = vec![
        (p("P.get"), 0, Var::from("this@P")),
        (p("P.get"), 1, Var::from("x@P")),
        (p("Q.get"), 0, Var::from("this@Q")),
        (p("Q.get"), 1, Var::from("x@Q")),
        (p("Y.hop"), 0, Var::from("this@Y")),
        (p("Z.hop"), 0, Var::from("this@Z")),
        (p("warm"), 0, Var::from("this@warm")),
        (p("main"), 0, Var::from("this@main")),
    ];
    prog.ret = vec![
        (p("P.get"), Var::from("h")),
        (p("Q.get"), Var::from("x@Q")),
        (p("Y.hop"), Var::from("yo")),
        (p("Z.hop"), Var::from("zo")),
        (p("warm"), Var::from("wt")),
    ];
    prog.in_proc = vec![
        (Stmt::from("G1"), p("P.get"), 0),
        (Stmt::from("H1"), p("Y.hop"), 0),
        (Stmt::from("H2"), p("Z.hop"), 0),
        (Stmt::from("W0"), p("warm"), 0),
        (Stmt::from("W1"), p("warm"), 1),
        (Stmt::from("M1"), p("main"), 0),
        (Stmt::from("M2"), p("main"), 1),
        (Stmt::from("M3"), p("main"), 2),
    ];
    prog.alloc = vec![
        (Stmt::from("H1"), Var::from("yo"), Alloc::from("lyo")),
        (Stmt::from("H2"), Var::from("zo"), Alloc::from("lzo")),
        (Stmt::from("W0"), Var::from("wo"), Alloc::from("lw")),
        (Stmt::from("M1"), Var::from("g"), Alloc::from("lp")),
        (Stmt::from("M2"), Var::from("y"), Alloc::from("ly")),
    ];
    prog.virtual_call = vec![
        (Stmt::from("G1"), Var::from("x@P"), Sig::from("hop()")),
        (Stmt::from("M3"), Var::from("g"), Sig::from("get(Obj)")),
    ];
    prog.direct_call = vec![(Stmt::from("W1"), p("P.get"))];
    prog.actual_arg = vec![
        (Stmt::from("G1"), 0, Var::from("x@P")),
        (Stmt::from("W1"), 0, Var::from("this@warm")),
        (Stmt::from("W1"), 1, Var::from("wo")),
        (Stmt::from("M3"), 0, Var::from("g")),
        (Stmt::from("M3"), 1, Var::from("y")),
    ];
    prog.bind_ret = vec![
        (Stmt::from("G1"), Var::from("h")),
        (Stmt::from("W1"), Var::from("wt")),
        (Stmt::from("M3"), Var::from("r")),
    ];

    let h = run_hybrid(&prog, 4);
    let outer = CritId::origin("M3");
    let inner = CritId::origin("G1");
    let nested = inner.nest(&outer);

    assert_eq!(
        as_set(h.placeholders(&p("P.get"))),
        BTreeSet::from([inner.clone()]),
        "P.get's summary must still defer G1"
    );
    assert!(
        h.top.iter().all(|(owner, _)| owner != &p("P.get")),
        "G1 must not be summarized for every context inside P.get: {:?}",
        h.top
    );

    assert_eq!(
        as_set(h.callees_of(&p("main"), &outer)),
        BTreeSet::from([p("P.get")])
    );

    assert!(
        h.pending.contains(&(p("main"), nested.clone())),
        "⟨G1@M3⟩ must be pending in main: {:?}",
        h.pending
    );

    assert_eq!(
        as_set(h.callees_of(&p("main"), &nested)),
        BTreeSet::from([p("Y.hop")]),
        "the nested instance must dispatch on what main actually passes"
    );

    assert_eq!(pt(&h, "main", "r"), set(&["{lyo}"]));
}

#[test]
fn an_entry_and_an_uncalled_procedure_both_top_summarize_in_place() {
    let mut prog = Program::default();
    prog.procedure = [
        (p("launcher"),),
        (p("root"),),
        (p("orphan"),),
        (p("Y.poly"),),
        (p("Z.poly"),),
    ]
    .to_vec();
    prog.entry = vec![(p("launcher"),), (p("root"),)];
    prog.lookup = vec![
        (Type::from("Y"), Sig::from("poly()"), p("Y.poly")),
        (Type::from("Z"), Sig::from("poly()"), p("Z.poly")),
    ];
    prog.alloc_type = vec![
        (Alloc::from("lo"), Type::from("Obj")),
        (Alloc::from("lyv"), Type::from("Obj")),
        (Alloc::from("lzv"), Type::from("Obj")),
    ];
    prog.formal = vec![
        (p("launcher"), 0, Var::from("this@launcher")),
        (p("root"), 0, Var::from("this@root")),
        (p("root"), 1, Var::from("arg@root")),
        (p("orphan"), 0, Var::from("this@orphan")),
        (p("orphan"), 1, Var::from("o@orphan")),
        (p("Y.poly"), 0, Var::from("this@Y")),
        (p("Z.poly"), 0, Var::from("this@Z")),
    ];
    prog.ret = vec![
        (p("root"), Var::from("q")),
        (p("orphan"), Var::from("s")),
        (p("Y.poly"), Var::from("yv")),
        (p("Z.poly"), Var::from("zv")),
    ];
    prog.in_proc = vec![
        (Stmt::from("L1"), p("launcher"), 0),
        (Stmt::from("L2"), p("launcher"), 1),
        (Stmt::from("R1"), p("root"), 0),
        (Stmt::from("O1"), p("orphan"), 0),
        (Stmt::from("Y1"), p("Y.poly"), 0),
        (Stmt::from("Z1"), p("Z.poly"), 0),
    ];
    prog.alloc = vec![
        (Stmt::from("L1"), Var::from("a"), Alloc::from("lo")),
        (Stmt::from("Y1"), Var::from("yv"), Alloc::from("lyv")),
        (Stmt::from("Z1"), Var::from("zv"), Alloc::from("lzv")),
    ];
    prog.virtual_call = vec![
        (Stmt::from("R1"), Var::from("arg@root"), Sig::from("poly()")),
        (Stmt::from("O1"), Var::from("o@orphan"), Sig::from("poly()")),
    ];
    prog.direct_call = vec![(Stmt::from("L2"), p("root"))];
    prog.actual_arg = vec![
        (Stmt::from("R1"), 0, Var::from("arg@root")),
        (Stmt::from("O1"), 0, Var::from("o@orphan")),
        (Stmt::from("L2"), 0, Var::from("this@launcher")),
        (Stmt::from("L2"), 1, Var::from("a")),
    ];
    prog.bind_ret = vec![
        (Stmt::from("R1"), Var::from("q")),
        (Stmt::from("O1"), Var::from("s")),
        (Stmt::from("L2"), Var::from("t")),
    ];

    let k = 3;
    let h = run_hybrid(&prog, k);
    let r1 = CritId::origin("R1");
    let o1 = CritId::origin("O1");
    let both = BTreeSet::from([p("Y.poly"), p("Z.poly")]);

    assert!(r1.depth() < k && o1.depth() < k);

    assert!(
        !h.uncalled.contains(&(p("root"),)),
        "launcher calls root, so root is not uncalled"
    );
    assert!(h.blocked.contains(&(p("root"), r1.clone())));
    assert!(
        h.top.contains(&(p("root"), r1.clone())),
        "an entry's blocked placeholder must summarize for every context where it stands"
    );
    assert_eq!(as_set(h.callees_of(&p("root"), &r1)), both);

    assert!(h.uncalled.contains(&(p("orphan"),)));
    assert!(h.blocked.contains(&(p("orphan"), o1.clone())));
    assert!(
        h.top.contains(&(p("orphan"), o1.clone())),
        "a procedure with no callers must summarize for every context its blocked placeholders"
    );
    assert_eq!(as_set(h.callees_of(&p("orphan"), &o1)), both);
}

#[test]
fn a_procedure_only_in_proc_names_still_publishes_a_summary() {
    let mut prog = Program::default();
    prog.procedure = vec![(p("main"),)];
    prog.entry = vec![(p("main"),)];
    prog.alloc_type = vec![(Alloc::from("lo"), Type::from("Obj"))];
    prog.formal = vec![
        (p("main"), 0, Var::from("this@main")),
        (p("hidden"), 0, Var::from("this@hidden")),
        (p("hidden"), 1, Var::from("x@hidden")),
    ];
    prog.ret = vec![(p("hidden"), Var::from("t"))];
    prog.in_proc = vec![
        (Stmt::from("H1"), p("hidden"), 0),
        (Stmt::from("M1"), p("main"), 0),
        (Stmt::from("M2"), p("main"), 1),
    ];
    prog.mov = vec![(Stmt::from("H1"), Var::from("t"), Var::from("x@hidden"))];
    prog.alloc = vec![(Stmt::from("M1"), Var::from("o"), Alloc::from("lo"))];
    prog.direct_call = vec![(Stmt::from("M2"), p("hidden"))];
    prog.actual_arg = vec![
        (Stmt::from("M2"), 0, Var::from("this@main")),
        (Stmt::from("M2"), 1, Var::from("o")),
    ];
    prog.bind_ret = vec![(Stmt::from("M2"), Var::from("r"))];

    let h = run_hybrid(&prog, 2);

    assert!(
        h.known_proc.contains(&(p("hidden"),)),
        "in_proc names `hidden`, which is enough to make it a known procedure"
    );
    assert_eq!(
        rendered(&h.summaries(), "hidden"),
        ["ret@hidden ⊇ par_1@hidden"]
    );
    assert_eq!(pt(&h, "main", "r"), set(&["{lo}"]));
}

#[test]
fn a_pending_stores_value_slot_blocks_what_reads_it_back() {
    let mut prog = Program::default();
    prog.procedure = [(p("p"),), (p("main"),), (p("Y.poly"),), (p("Z.poly"),)].to_vec();
    prog.entry = vec![(p("main"),)];
    prog.lookup = vec![
        (Type::from("Y"), Sig::from("poly()"), p("Y.poly")),
        (Type::from("Z"), Sig::from("poly()"), p("Z.poly")),
    ];
    prog.alloc_type = vec![
        (Alloc::from("lm"), Type::from("Arr")),
        (Alloc::from("ly"), Type::from("Y")),
        (Alloc::from("lyv"), Type::from("Obj")),
        (Alloc::from("lzv"), Type::from("Obj")),
    ];
    prog.formal = vec![
        (p("p"), 0, Var::from("this@p")),
        (p("main"), 0, Var::from("this@main")),
        (p("Y.poly"), 0, Var::from("this@Y")),
        (p("Z.poly"), 0, Var::from("this@Z")),
    ];
    prog.ret = vec![
        (p("p"), Var::from("r")),
        (p("Y.poly"), Var::from("yv")),
        (p("Z.poly"), Var::from("zv")),
    ];
    prog.in_proc = vec![
        (Stmt::from("P0"), p("p"), 0),
        (Stmt::from("P1"), p("p"), 1),
        (Stmt::from("Pv"), p("p"), 2),
        (Stmt::from("P2"), p("p"), 3),
        (Stmt::from("P3"), p("p"), 4),
        (Stmt::from("P4"), p("p"), 5),
        (Stmt::from("M1"), p("main"), 0),
        (Stmt::from("Y1"), p("Y.poly"), 0),
        (Stmt::from("Z1"), p("Z.poly"), 0),
    ];
    prog.alloc = vec![
        (Stmt::from("P0"), Var::from("m"), Alloc::from("lm")),
        (Stmt::from("Pv"), Var::from("v"), Alloc::from("ly")),
        (Stmt::from("Y1"), Var::from("yv"), Alloc::from("lyv")),
        (Stmt::from("Z1"), Var::from("zv"), Alloc::from("lzv")),
    ];
    prog.const_assign = vec![(Stmt::from("P1"), Var::from("k"), Const::from("key"))];
    prog.store_index_var = vec![(
        Stmt::from("P2"),
        Var::from("m"),
        Var::from("k"),
        Var::from("v"),
    )];
    prog.load_index_const = vec![(
        Stmt::from("P3"),
        Var::from("t"),
        Var::from("m"),
        Const::from("key"),
    )];
    prog.virtual_call = vec![(Stmt::from("P4"), Var::from("t"), Sig::from("poly()"))];
    prog.direct_call = vec![(Stmt::from("M1"), p("p"))];
    prog.actual_arg = vec![
        (Stmt::from("P4"), 0, Var::from("t")),
        (Stmt::from("M1"), 0, Var::from("this@main")),
    ];
    prog.bind_ret = vec![
        (Stmt::from("P4"), Var::from("r")),
        (Stmt::from("M1"), Var::from("out")),
    ];

    let h = run_hybrid(&prog, 3);
    let call = CritId::origin("P4");
    let store = CritId::origin("P2");

    assert!(
        h.points.contains(&(
            p("p"),
            AccessPath::crit_slot(call.clone(), 0),
            PtVal::Path(AccessPath::crit_slot(store.clone(), 2)),
        )),
        "the receiver should see the store's value slot"
    );
    assert!(
        h.can_propagate.contains(&(p("p"), store.clone())),
        "premise: the store instance can still travel"
    );

    assert!(
        h.blocked.contains(&(p("p"), call.clone())),
        "a free placeholder slot in the receiver's set must block"
    );
    assert!(
        h.pending
            .contains(&(p("main"), call.push(&Stmt::from("M1")))),
        "a blocked instance propagates: {:?}",
        h.pending
    );
    assert!(
        as_set(h.placeholders(&p("p"))).contains(&call),
        "and it is still reported as deferred in p"
    );
}

#[test]
fn a_store_of_an_opaque_value_still_publishes_the_congruent_suffix() {
    let mut prog = Program::default();
    prog.procedure = vec![(p("p"),)];
    prog.formal = vec![
        (p("p"), 0, Var::from("this@p")),
        (p("p"), 1, Var::from("par@p")),
    ];
    prog.ret = vec![(p("p"), Var::from("a"))];
    prog.in_proc = vec![(Stmt::from("S1"), p("p"), 0), (Stmt::from("S2"), p("p"), 1)];
    prog.mov = vec![(Stmt::from("S1"), Var::from("a"), Var::from("par@p"))];
    prog.store_field = vec![(
        Stmt::from("S2"),
        Var::from("a"),
        Field::from("f"),
        Var::from("c"),
    )];

    let h = run_hybrid(&prog, 2);

    assert!(
        h.points_to(&p("p"), "c").is_empty(),
        "premise: the stored value is opaque"
    );

    assert_eq!(
        rendered(&h.summaries(), "p"),
        ["ret@p ⊇ par_1@p", "ret@p.f ⊇ par_1@p.f"],
        "the mention of `.f` is what makes the congruent constraint publishable"
    );
}

#[test]
fn free_root_lists_the_return_value_of_every_procedure() {
    for prog in [example::figure1(), figure5::program()] {
        let h = run_hybrid(&prog, 2);
        assert!(
            !h.known_proc.is_empty(),
            "premise: the program has procedures"
        );
        for (proc_,) in &h.known_proc {
            assert!(
                h.free_root
                    .contains(&(proc_.clone(), Base::Ret(proc_.clone()))),
                "the free roots must contain ret@{}",
                proc_.to_string()
            );
        }
    }
}

#[test]
fn a_ret_rooted_index_blocks_the_access_it_decides() {
    let mut prog = Program::default();
    prog.procedure = vec![(p("q"),)];
    prog.formal = vec![(p("q"), 0, Var::from("this@q"))];
    prog.alloc_type = vec![(Alloc::from("lm"), Type::from("Arr"))];
    prog.in_proc = vec![(Stmt::from("Q0"), p("q"), 0), (Stmt::from("Q1"), p("q"), 1)];
    prog.alloc = vec![(Stmt::from("Q0"), Var::from("m"), Alloc::from("lm"))];
    prog.load_index_var = vec![(
        Stmt::from("Q1"),
        Var::from("t"),
        Var::from("m"),
        Var::from("i"),
    )];

    let mut h = HybridAnalysis::for_program(&prog, 2);
    h.edge
        .push((p("q"), AccessPath::var("i"), AccessPath::ret(p("q"))));
    h.run();

    let id = CritId::origin("Q1");
    let index = AccessPath::crit_slot(id.clone(), 1);

    let symbolic: BTreeSet<Base> = h
        .points
        .iter()
        .filter(|(proc_, w, _)| proc_ == &p("q") && w == &index)
        .filter_map(|(_, _, v)| match v {
            PtVal::Path(w) => Some(w.base.clone()),
            _ => None,
        })
        .collect();
    assert_eq!(
        symbolic,
        BTreeSet::from([Base::Ret(p("q"))]),
        "premise: `ret@q` is the only free root reaching the index"
    );
    assert!(
        h.stuck.contains(&(p("q"), id.clone())),
        "premise: `q` has no callers, so `⟨Q1⟩` has nowhere to propagate"
    );

    assert!(
        h.blocked.contains(&(p("q"), id.clone())),
        "`ret@q` is free, so the index it reaches is not yet decided"
    );
    assert!(
        !h.adequate.contains(&(p("q"), id.clone())),
        "so the context is not adequate"
    );
    assert!(
        h.top.contains(&(p("q"), id.clone())),
        "blocked and stuck: the instance has to be summarized for every context here"
    );
    assert_eq!(
        as_set(h.accessors_of(&p("q"), &id)),
        BTreeSet::from([Accessor::IndexUnknown]),
        "so the access widens to `[π]` rather than resolving to nothing"
    );
}
