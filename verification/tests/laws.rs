//! The laws of the analysis, on programs of several shapes.
use std::collections::BTreeSet;

use hybrid_inlining_paper::access_path::{AccessPath, Accessor, Base, CritId, PtVal, Suffix};
use hybrid_inlining_paper::analysis::{
    crit_subst, render_dispatch, render_summary, run_hybrid, HybridAnalysis,
};
use hybrid_inlining_paper::families::{
    alias, branching, chain, fanin, fields_chain, recursive_field,
};
use hybrid_inlining_paper::ir::{Proc, Program};
use hybrid_inlining_paper::{example, figure5};

fn programs() -> Vec<Program> {
    vec![
        example::figure1(),
        figure5::program(),
        chain(3, 2),
        branching(2, 2),
        fanin(4, 3),
        fields_chain(3),
        recursive_field(),
    ]
}

/// Every program under several limits.
fn analyses() -> Vec<HybridAnalysis> {
    let mut out = Vec::new();
    for prog in programs() {
        for k in [0usize, 1, 4] {
            out.push(run_hybrid(&prog, k));
        }
    }
    out
}

#[test]
fn call_strings_stay_within_the_limit() {
    for h in analyses() {
        assert!(h.pending.iter().all(|(_, id)| id.depth() <= h.k_limit));
    }
}

#[test]
fn holders_are_procedures_of_the_program() {
    for h in analyses() {
        assert!(h.pending.iter().all(|(p, _)| h.known_proc.contains(&(p.clone(),))));
        assert!(h.pending.iter().all(|(_, id)| h.critical.contains(&(id.stmt.clone(),))));
    }
}

#[test]
fn at_limit_zero_every_instance_stays_where_it_stands() {
    for prog in programs() {
        let h = run_hybrid(&prog, 0);
        let pending: BTreeSet<_> = h.pending.iter().cloned().collect();
        let origins: BTreeSet<_> =
            h.crit_origin.iter().map(|(p, _, id)| (p.clone(), id.clone())).collect();
        assert_eq!(pending, origins);
        assert!(h.can_propagate.is_empty());
        assert!(h.blocked.iter().all(|x| h.top.contains(x)));
    }
}

#[test]
fn what_is_blocked_moves_on_or_is_decided_for_every_context() {
    for h in analyses() {
        for x in &h.pending {
            assert!(h.can_propagate.contains(x) || h.stuck.contains(x));
            assert_ne!(h.adequate.contains(x), h.blocked.contains(x));
        }
        for x in &h.blocked {
            assert!(h.can_propagate.contains(x) || h.top.contains(x));
        }
    }
}

#[test]
fn what_will_propagate_is_blocked() {
    let mut seen = 0;
    for h in analyses() {
        for x in &h.will_propagate {
            assert!(h.blocked.contains(x) && h.can_propagate.contains(x));
            seen += 1;
        }
    }
    assert!(seen > 0);
}

#[test]
fn paths_among_the_values_are_symbolic_and_published() {
    for h in analyses() {
        for (p, _, v) in &h.points {
            if let PtVal::Path(w) = v {
                assert!(w.base.is_symbolic());
                assert!(h.pub_root.contains(&(p.clone(), w.base.clone())));
            }
        }
        assert!(h.free_root.iter().all(|x| h.pub_root.contains(x)));
        for (p,) in &h.known_proc {
            assert!(h.free_root.contains(&(p.clone(), Base::Ret(p.clone()))));
        }
    }
}

#[test]
fn every_suffix_is_admitted() {
    for h in analyses() {
        let admitted: BTreeSet<Suffix> = h.program.paths.iter().map(|(s,)| s.clone()).collect();
        for (_, a, b) in &h.edge {
            for w in [a, b] {
                assert!(admitted.contains(&w.suffix()), "{}", w.to_string());
            }
        }
    }
}

#[test]
fn resolution_stays_within_the_targets_of_the_signature() {
    for h in analyses() {
        for (_, id, callee) in &h.resolve {
            assert!(h
                .crit_sig
                .iter()
                .any(|(i, g)| i == id && h.sig_target.contains(&(g.clone(), callee.clone()))));
        }
    }
}

#[test]
fn running_again_changes_nothing() {
    for prog in programs() {
        let mut h = run_hybrid(&prog, 2);
        let before = (h.edge.len(), h.points.len(), h.pending.len(), h.settled.len());
        h.run();
        assert_eq!((h.edge.len(), h.points.len(), h.pending.len(), h.settled.len()), before);
    }
}

#[test]
fn a_larger_seed_derives_at_least_as_much() {
    let prog = example::figure1();
    let plain = run_hybrid(&prog, 2);
    let mut seeded = HybridAnalysis::for_program(&prog, 2);
    let extra = (
        Proc::from("Y.poly"),
        AccessPath::var("extra"),
        PtVal::Alloc("l99".into()),
    );
    seeded.points.push(extra.clone());
    seeded.run();
    assert!(seeded.points.contains(&extra));
    assert!(plain.points.iter().all(|x| seeded.points.contains(x)));
    assert!(plain.edge.iter().all(|x| seeded.edge.contains(x)));
}

#[test]
fn a_callees_roots_land_on_the_placeholder() {
    let callee = Proc::from("c");
    let id = CritId::origin("s").push(&"t".into());
    let at = |b: Base, k: usize| crit_subst(&callee, &id, &b, k);
    assert_eq!(at(Base::Param("c".into(), 2), 0), Some(Base::CritSlot(id.clone(), 2)));
    assert_eq!(at(Base::Ret("c".into()), 0), Some(Base::CritRet(id.clone())));
    assert_eq!(at(Base::Param("other".into(), 2), 9), None);
    assert_eq!(at(Base::Ret("other".into()), 9), None);
    assert_eq!(at(Base::Var("v".into()), 9), None);
    let inner = CritId::origin("u");
    assert_eq!(at(Base::CritRet(inner.clone()), 1), None);
    assert_eq!(at(Base::CritRet(inner.clone()), 2), Some(Base::CritRet(inner.nest(&id))));
    assert_eq!(at(Base::CritSlot(inner.clone(), 1), 2), Some(Base::CritSlot(inner.nest(&id), 1)));
}

#[test]
fn decisions_and_summaries_are_rendered() {
    let h = run_hybrid(&example::figure1(), 4);
    let id = CritId::origin("L25").push(&"L28".into()).push(&"L31b".into());
    assert_eq!(render_dispatch(&id, &"Y.poly".into()), "⟨L25@L28·L31b⟩ → Y.poly");
    let foo = Proc::from("FacadeImpl.foo");
    let (_, summary) = h.summaries().into_iter().find(|(p, _)| *p == foo).unwrap();
    let lines = render_summary(&summary, &h.placeholders(&foo));
    assert_eq!(lines.last().unwrap(), "critical ⟨L25⟩ deferred");
    assert_eq!(lines.len(), summary.len() + 1);
}

#[test]
fn a_suffix_replaces_the_one_a_path_has() {
    let w = AccessPath::var("x").field("f");
    let other = Suffix::from(vec![Accessor::IndexUnknown]);
    assert_eq!(w.with_suffix(&other).to_string(), "x[π]");
    assert_eq!(w.with_suffix(&w.suffix()), w);
}

#[test]
fn the_facts_are_copied_tuple_for_tuple() {
    let mut prog = figure5::program();
    let again = prog.procedure[0].clone();
    prog.procedure.push(again);
    let long = Suffix::from(vec![Accessor::Field("g".into()), Accessor::IndexUnknown]);
    prog.paths = vec![(long.clone(),), (Suffix::empty(),), (long.clone(),)];
    let copy = prog.clone();
    let h = HybridAnalysis::for_program(&prog, 3);
    let done = run_hybrid(&prog, 3);
    assert_eq!(copy.procedure, prog.procedure, "twice stays twice");
    assert_eq!(copy.in_proc, prog.in_proc);
    assert_eq!(copy.paths, prog.paths);
    for p in [&h.program, &done.program] {
        assert_eq!(p.procedure, prog.procedure);
        assert_eq!(p.in_proc, prog.in_proc);
        assert_eq!(p.actual_arg, prog.actual_arg);
        assert_eq!(p.lookup, prog.lookup);
        assert_eq!(p.paths, vec![(Suffix::empty(),), (long.clone(),)], "in order, each once");
    }
    assert_eq!((h.k_limit, done.k_limit), (3, 3));
    assert!(h.edge.is_empty() && h.known_proc.is_empty() && h.blocked.is_empty());
}

#[test]
fn every_level_of_a_branching_program_forks() {
    let deep = branching(3, 2);
    for i in 1..=3usize {
        let me = format!("P{i}");
        let body: Vec<(String, usize)> = deep
            .in_proc
            .iter()
            .filter(|(_, p, _)| p.to_string() == me)
            .map(|(s, _, l)| (s.to_string(), *l))
            .collect();
        assert_eq!(body, [(format!("S{i}a"), 0), (format!("S{i}b"), 1)]);
        for (s, _) in &body {
            let calls: Vec<String> = deep
                .direct_call
                .iter()
                .filter(|(x, _)| x.to_string() == *s)
                .map(|(_, q)| q.to_string())
                .collect();
            assert_eq!(calls, [format!("P{}", i - 1)]);
            let args: Vec<String> = deep
                .actual_arg
                .iter()
                .filter(|(x, _, _)| x.to_string() == *s)
                .map(|(_, _, v)| v.to_string())
                .collect();
            assert_eq!(args, [format!("this@{me}"), format!("x@{me}"), format!("obj@{me}")]);
        }
        let returned: Vec<String> = deep
            .ret
            .iter()
            .filter(|(p, _)| p.to_string() == me)
            .map(|(_, v)| v.to_string())
            .collect();
        assert_eq!(returned, [format!("ra@{me}"), format!("rb@{me}")]);
    }
    for d in 0..4usize {
        let (less, more) = (branching(d, 2), branching(d + 1, 2));
        assert_eq!(more.procedure.len(), less.procedure.len() + 1);
        assert_eq!(more.direct_call.len(), less.direct_call.len() + 2);
        assert_eq!(more.actual_arg.len(), less.actual_arg.len() + 6);
        assert_eq!(more.alloc.len(), less.alloc.len());
    }
}

#[test]
fn a_chain_resolves_once_at_the_top() {
    for n in 0..4usize {
        for targets in 2..4usize {
            let h = run_hybrid(&chain(n, targets), n + 1);
            let mut id = CritId::origin("S0");
            for i in 1..=n {
                id = id.push(&format!("S{i}").as_str().into());
            }
            id = id.push(&"E2".into());
            let once = (Proc::from("Entry"), id.clone(), Proc::from("C0.poly"));
            assert_eq!(h.resolve, vec![once]);
            assert!(h.pending.contains(&(Proc::from("Entry"), id)));
            assert_eq!(h.pending.len(), n + 2);
        }
    }
}

#[test]
fn a_merge_holds_the_objects_that_went_into_it() {
    let h = run_hybrid(&alias(5), 2);
    for i in 0..5usize {
        let set: BTreeSet<String> = h
            .points
            .iter()
            .filter(|(_, w, _)| *w == AccessPath::var(format!("c{i}")))
            .map(|(_, _, v)| v.to_string())
            .collect();
        let want: BTreeSet<String> = (0..=i).map(|j| format!("{{l{j}}}")).collect();
        assert_eq!(set, want);
    }
}

#[test]
fn a_chain_of_reads_stops_at_one_accessor() {
    for n in [0usize, 1, 5] {
        let h = run_hybrid(&fields_chain(n), 3);
        let deepest = h.edge.iter().flat_map(|(_, a, b)| [a.accessors.len(), b.accessors.len()]).max();
        assert_eq!(deepest, Some(1));
        assert!(h.points.iter().all(|(_, w, _)| w.accessors.len() <= 1));
        assert!(h.program.paths.iter().all(|(s,)| s.0.len() <= 1));
    }
}
