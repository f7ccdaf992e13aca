//! Runs of an analysis whose relations hold tuples already.
use std::fmt::Debug;

use hybrid_inlining_paper::access_path::{AccessPath, Base, CritId, PtVal};
use hybrid_inlining_paper::analysis::{run_hybrid, HybridAnalysis};
use hybrid_inlining_paper::families::{
    alias, branching, chain, dead_receiver, fanin, fields, fields_chain, recursive_field, targets,
};
use hybrid_inlining_paper::ir::{Proc, Program, Stmt};
use hybrid_inlining_paper::{example, figure5};

fn shown<T: Debug>(v: &Vec<T>) -> Vec<String> {
    let mut list: Vec<String> = v.iter().map(|x| format!("{x:?}")).collect();
    list.sort();
    list
}

/// Every relation by name, with its tuples in order.
fn relations(h: &HybridAnalysis) -> Vec<(&'static str, Vec<String>)> {
    vec![
        ("sig_target", shown(&h.sig_target)),
        ("sig_size", shown(&h.sig_size)),
        ("mono_target", shown(&h.mono_target)),
        ("eff_direct", shown(&h.eff_direct)),
        ("critical", shown(&h.critical)),
        ("known_proc", shown(&h.known_proc)),
        ("is_called", shown(&h.is_called)),
        ("uncalled", shown(&h.uncalled)),
        ("edge", shown(&h.edge)),
        ("points", shown(&h.points)),
        ("path_used", shown(&h.path_used)),
        ("crit_origin", shown(&h.crit_origin)),
        ("pending", shown(&h.pending)),
        ("can_propagate", shown(&h.can_propagate)),
        ("carries", shown(&h.carries)),
        ("decisive_var", shown(&h.decisive_var)),
        ("slot_from_formal", shown(&h.slot_from_formal)),
        ("will_propagate", shown(&h.will_propagate)),
        ("stuck", shown(&h.stuck)),
        ("crit_operand", shown(&h.crit_operand)),
        ("call_crit", shown(&h.call_crit)),
        ("load_crit", shown(&h.load_crit)),
        ("store_crit", shown(&h.store_crit)),
        ("index_crit", shown(&h.index_crit)),
        ("decisive_slot", shown(&h.decisive_slot)),
        ("crit_sig", shown(&h.crit_sig)),
        ("free_root", shown(&h.free_root)),
        ("pub_root", shown(&h.pub_root)),
        ("pub_points", shown(&h.pub_points)),
        ("root_map", shown(&h.root_map)),
        ("blocked", shown(&h.blocked)),
        ("top", shown(&h.top)),
        ("resolve", shown(&h.resolve)),
        ("index_undecidable", shown(&h.index_undecidable)),
        ("index_acc", shown(&h.index_acc)),
        ("adequate", shown(&h.adequate)),
        ("settled", shown(&h.settled)),
    ]
}

fn agree(prog: &Program, k: usize) {
    let fast = run_hybrid(prog, k);
    let mut table = HybridAnalysis::for_program(prog, k);
    table.resume();
    assert_eq!(relations(&fast), relations(&table));
}

#[test]
fn the_table_of_rules_agrees_on_the_first_figure() {
    for k in [0usize, 1, 3] {
        agree(&example::figure1(), k);
    }
}

#[test]
fn the_table_of_rules_agrees_on_accesses_through_an_index() {
    for k in [0usize, 1, 4] {
        agree(&figure5::program(), k);
    }
}

#[test]
fn the_table_of_rules_agrees_on_the_families() {
    for k in [0usize, 2] {
        agree(&chain(2, 3), k);
        agree(&branching(2, 2), k);
        agree(&fanin(3, 2), k);
        agree(&fields_chain(2), k);
        agree(&recursive_field(), k);
    }
}

#[test]
fn the_table_of_rules_agrees_on_the_small_families() {
    agree(&alias(4), 1);
    agree(&fields(3), 1);
    agree(&targets(3), 2);
    agree(&dead_receiver(), 2);
    agree(&Program::default(), 2);
}

#[test]
fn a_second_run_changes_nothing() {
    let mut h = run_hybrid(&figure5::program(), 2);
    let once = relations(&h);
    h.run();
    assert_eq!(relations(&h), once);
}

#[test]
fn a_blocked_instance_that_was_put_in_is_summarized_at_the_top() {
    let mut h = HybridAnalysis::for_program(&chain(1, 2), 3);
    let id = CritId::origin("S0").push(&"S1".into()).push(&"E2".into());
    h.blocked.push((Proc::from("Entry"), id.clone()));
    h.run();
    assert!(h.top.contains(&(Proc::from("Entry"), id.clone())), "the entry is stuck");
    let mut callees: Vec<String> = h
        .resolve
        .iter()
        .filter(|(p, other, _)| *p == Proc::from("Entry") && *other == id)
        .map(|(_, _, c)| c.to_string())
        .collect();
    callees.sort();
    assert_eq!(callees, ["C0.poly", "C1.poly"], "every target, not the pinned one alone");
    assert!(!h.adequate.contains(&(Proc::from("Entry"), id)));
}

#[test]
fn a_call_that_was_put_in_is_inlined() {
    let mut prog = Program::default();
    prog.procedure = vec![(Proc::from("p"),), (Proc::from("q"),)];
    prog.in_proc = vec![("S".into(), Proc::from("q"), 0), ("A".into(), Proc::from("p"), 0)];
    prog.alloc = vec![("A".into(), "v".into(), "l".into())];
    prog.ret = vec![(Proc::from("p"), "v".into())];
    prog.bind_ret = vec![("S".into(), "r".into())];
    let bare = run_hybrid(&prog, 2);
    let at_r = (Proc::from("q"), AccessPath::var("r"), PtVal::Alloc("l".into()));
    assert!(!bare.points.contains(&at_r));
    let mut h = HybridAnalysis::for_program(&prog, 2);
    h.eff_direct.push((Stmt::from("S"), Proc::from("p")));
    h.run();
    assert!(h.is_called.contains(&(Proc::from("p"),)));
    assert!(h.points.contains(&at_r));
    assert!(!h.uncalled.contains(&(Proc::from("p"),)));
}

#[test]
fn a_size_that_was_put_in_counts_beside_the_true_one() {
    let prog = chain(0, 2);
    let mut h = HybridAnalysis::for_program(&prog, 2);
    h.sig_size.push(("poly(Obj)".into(), 1));
    h.run();
    assert_eq!(h.sig_size.len(), 2);
    assert!(h.critical.contains(&("S0".into(),)), "two targets are still two");
    let mono: Vec<String> = h.mono_target.iter().map(|(_, p)| p.to_string()).collect();
    assert_eq!(mono.len(), 2, "and a size of one makes each a single target");
}

#[test]
fn what_was_put_into_a_report_stays_there() {
    let mut h = HybridAnalysis::for_program(&Program::default(), 1);
    let id = CritId::origin("X");
    h.adequate.push((Proc::from("p"), id.clone()));
    h.settled.push((Proc::from("p"), id.clone()));
    h.path_used.push((Proc::from("p"), Base::Var("v".into()), AccessPath::var("v")));
    h.run();
    assert_eq!(h.adequate, vec![(Proc::from("p"), id.clone())]);
    assert_eq!(h.settled, vec![(Proc::from("p"), id)]);
    assert_eq!(h.path_used.len(), 1);
    assert!(h.pending.is_empty() && h.edge.is_empty());
}

#[test]
fn an_answer_of_an_earlier_run_counts_in_the_next() {
    let mut h = run_hybrid(&chain(0, 2), 2);
    let id = CritId::origin("S0").push(&"E2".into());
    let entry = Proc::from("Entry");
    assert!(h.adequate.contains(&(entry.clone(), id.clone())));
    let slot = AccessPath::crit_slot(id.clone(), 0);
    h.points.push((entry.clone(), slot, PtVal::Path(AccessPath::param(entry.clone(), 0))));
    h.run();
    assert!(h.blocked.contains(&(entry.clone(), id.clone())));
    assert!(h.adequate.contains(&(entry, id)), "nothing removes a tuple");
}
