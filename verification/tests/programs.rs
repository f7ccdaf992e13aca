//! The two worked programs are well formed.
use std::collections::HashSet;

use hybrid_inlining_paper::ir::{Proc, Stmt};
use hybrid_inlining_paper::{example, figure5};


#[test]
fn example_every_statement_is_in_exactly_one_procedure() {
    let prog = example::figure1();
    let declared: HashSet<&Stmt> = prog.in_proc.iter().map(|(s, _, _)| s).collect();
    assert_eq!(
        declared.len(),
        prog.in_proc.len(),
        "duplicate statement label"
    );

    let mentioned = prog
        .alloc
        .iter()
        .map(|(s, ..)| s)
        .chain(prog.mov.iter().map(|(s, ..)| s))
        .chain(prog.direct_call.iter().map(|(s, ..)| s))
        .chain(prog.virtual_call.iter().map(|(s, ..)| s))
        .chain(prog.actual_arg.iter().map(|(s, ..)| s))
        .chain(prog.bind_ret.iter().map(|(s, ..)| s));
    for st in mentioned {
        assert!(declared.contains(st), "{} has no in_proc fact", st.to_string());
    }
}

#[test]
fn example_callsite_arities_match_the_callee() {
    let prog = example::figure1();
    let arity = |proc: &Proc| prog.formal.iter().filter(|(q, ..)| q == proc).count();
    for (site, callee) in &prog.direct_call {
        let args = prog.actual_arg.iter().filter(|(s, ..)| s == site).count();
        assert_eq!(args, arity(callee), "arity mismatch at {} -> {}", site.to_string(), callee.to_string());
    }
}

#[test]
fn the_virtual_callsite_dispatches_to_both_implementations() {
    let prog = example::figure1();
    let (_, _, sig) = &prog.virtual_call[0];
    let targets: Vec<_> = prog
        .lookup
        .iter()
        .filter(|(_, g, _)| g == sig)
        .map(|(_, _, p)| p.to_string())
        .collect();
    assert_eq!(targets, vec!["Y.poly", "Z.poly"]);
}

#[test]
fn running_the_empty_program_changes_nothing() {
    let mut prog = example::figure1();
    let calls = prog.direct_call.len();
    prog.run();
    assert_eq!(prog.direct_call.len(), calls);
}


#[test]
fn figure5_every_statement_is_in_exactly_one_procedure() {
    let prog = figure5::program();
    let declared: HashSet<&Stmt> = prog.in_proc.iter().map(|(s, _, _)| s).collect();
    assert_eq!(
        declared.len(),
        prog.in_proc.len(),
        "duplicate statement label"
    );

    let mentioned = prog
        .alloc
        .iter()
        .map(|(s, ..)| s)
        .chain(prog.const_assign.iter().map(|(s, ..)| s))
        .chain(prog.load_index_var.iter().map(|(s, ..)| s))
        .chain(prog.store_index_var.iter().map(|(s, ..)| s))
        .chain(prog.direct_call.iter().map(|(s, ..)| s))
        .chain(prog.actual_arg.iter().map(|(s, ..)| s))
        .chain(prog.bind_ret.iter().map(|(s, ..)| s));
    for st in mentioned {
        assert!(declared.contains(st), "{} has no in_proc fact", st.to_string());
    }
}

#[test]
fn figure5_callsite_arities_match_the_callee() {
    let prog = figure5::program();
    let arity = |proc: &Proc| prog.formal.iter().filter(|(q, ..)| q == proc).count();
    for (site, callee) in &prog.direct_call {
        let args = prog.actual_arg.iter().filter(|(s, ..)| s == site).count();
        assert_eq!(args, arity(callee), "arity mismatch at {} -> {}", site.to_string(), callee.to_string());
    }
}
