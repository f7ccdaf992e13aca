//! How the relations grow along each of the program families.
use std::collections::{BTreeMap, BTreeSet};

use hybrid_inlining_paper::access_path::{Accessor, Suffix};
use hybrid_inlining_paper::analysis::{run_hybrid, HybridAnalysis};
use hybrid_inlining_paper::example;
use hybrid_inlining_paper::families::{
    alias, branching, chain, dead_receiver, edb_size, fanin, fields, fields_chain, recursive_field,
    targets, wide,
};
use hybrid_inlining_paper::ir::{Field, Program};
use hybrid_inlining_paper::query::crit_subst;

/// How many tuples each relation of a finished analysis holds.
fn sizes(h: &HybridAnalysis) -> BTreeMap<String, usize> {
    let mut renamed = BTreeSet::new();
    for (p, id, callee) in &h.resolve {
        for (q, base) in &h.pub_root {
            if q == callee {
                if let Some(to) = crit_subst(callee, id, base, h.k_limit) {
                    renamed.insert((p.clone(), id.clone(), base.clone(), to));
                }
            }
        }
    }
    vec![
        ("pub_edge", h.pub_edges().len()),
        ("crit_map", renamed.len()),
        ("sig_target", h.sig_target.len()),
        ("sig_size", h.sig_size.len()),
        ("mono_target", h.mono_target.len()),
        ("eff_direct", h.eff_direct.len()),
        ("critical", h.critical.len()),
        ("known_proc", h.known_proc.len()),
        ("is_called", h.is_called.len()),
        ("uncalled", h.uncalled.len()),
        ("edge", h.edge.len()),
        ("points", h.points.len()),
        ("path_used", h.path_used.len()),
        ("crit_origin", h.crit_origin.len()),
        ("pending", h.pending.len()),
        ("can_propagate", h.can_propagate.len()),
        ("carries", h.carries.len()),
        ("decisive_var", h.decisive_var.len()),
        ("slot_from_formal", h.slot_from_formal.len()),
        ("will_propagate", h.will_propagate.len()),
        ("stuck", h.stuck.len()),
        ("crit_operand", h.crit_operand.len()),
        ("call_crit", h.call_crit.len()),
        ("load_crit", h.load_crit.len()),
        ("store_crit", h.store_crit.len()),
        ("index_crit", h.index_crit.len()),
        ("decisive_slot", h.decisive_slot.len()),
        ("crit_sig", h.crit_sig.len()),
        ("free_root", h.free_root.len()),
        ("pub_root", h.pub_root.len()),
        ("pub_points", h.pub_points.len()),
        ("root_map", h.root_map.len()),
        ("blocked", h.blocked.len()),
        ("top", h.top.len()),
        ("resolve", h.resolve.len()),
        ("index_undecidable", h.index_undecidable.len()),
        ("index_acc", h.index_acc.len()),
        ("adequate", h.adequate.len()),
        ("settled", h.settled.len()),
    ]
    .into_iter()
    .map(|(name, n)| (name.to_string(), n))
    .collect()
}

fn run_sizes(prog: &Program, k: usize) -> BTreeMap<String, usize> {
    sizes(&run_hybrid(prog, k))
}

/// The slope of a least-squares line through the logarithms.
fn exponent(xs: &[f64], ys: &[f64]) -> f64 {
    let pts: Vec<(f64, f64)> = xs
        .iter()
        .zip(ys)
        .filter(|(_, y)| **y > 0.0)
        .map(|(x, y)| (x.ln(), y.ln()))
        .collect();
    let n = pts.len() as f64;
    let mx = pts.iter().map(|q| q.0).sum::<f64>() / n;
    let my = pts.iter().map(|q| q.1).sum::<f64>() / n;
    let num: f64 = pts.iter().map(|(x, y)| (x - mx) * (y - my)).sum();
    let den: f64 = pts.iter().map(|(x, _)| (x - mx).powi(2)).sum();
    num / den
}

fn fit(rel: &str, points: &[(Program, usize)]) -> f64 {
    let xs: Vec<f64> = points.iter().map(|(p, _)| edb_size(p) as f64).collect();
    let ys: Vec<f64> = points
        .iter()
        .map(|(p, k)| run_sizes(p, *k)[rel] as f64)
        .collect();
    exponent(&xs, &ys)
}

#[test]
fn figure1_relation_sizes_are_stable() {
    let m = run_sizes(&example::figure1(), 4);
    for (rel, want) in [
        ("edge", 40),
        ("points", 53),
        ("path_used", 65),
        ("pending", 4),
        ("pub_edge", 16),
        ("pub_points", 5),
        ("resolve", 2),
        ("settled", 2),
        ("root_map", 30),
        ("crit_map", 6),
    ] {
        assert_eq!(m[rel], want, "figure1 k=4: {rel} changed");
    }
}

#[test]
fn a_linear_call_chain_costs_a_constant_per_level() {
    let pts: Vec<(Program, usize)> =
        [4usize, 8, 16, 32].iter().map(|&n| (chain(n, 2), n + 2)).collect();
    for rel in ["edge", "points", "pending", "pub_edge", "root_map", "path_used"] {
        let d = fit(rel, &pts);
        assert!(d < 1.35, "chain: {rel} grows as |P|^{d:.2}, expected ~linear");
    }
    assert_eq!(run_sizes(&chain(16, 2), 18)["pending"], 18);
    assert_eq!(run_sizes(&chain(16, 2), 18)["resolve"], 1);
}

#[test]
fn call_strings_double_per_level_unless_k_caps_them() {
    for d in 1..=7usize {
        assert_eq!(
            run_sizes(&branching(d, 2), d + 2)["pending"],
            3 * (1 << d) - 1,
            "branching({d}) with k = d+2"
        );
    }
    let capped: Vec<usize> =
        (3..=7).map(|d| run_sizes(&branching(d, 2), 3)["pending"]).collect();
    assert!(
        capped.windows(2).all(|w| w[0] == w[1]),
        "k = 3 should bound pending, got {capped:?}"
    );
}

#[test]
fn points_is_quadratic_in_a_single_procedure() {
    let pts: Vec<(Program, usize)> = [8usize, 16, 32, 64].iter().map(|&n| (alias(n), 0)).collect();
    let d = fit("points", &pts);
    assert!(d > 1.5, "alias: points grows as |P|^{d:.2}, expected ~quadratic");

    let n = 32usize;
    let got = run_sizes(&alias(n), 0)["points"];
    assert!(
        got >= n * (n + 1) / 2,
        "alias({n}): points = {got}, expected at least n(n+1)/2"
    );
}

#[test]
fn suffix_congruence_is_quadratic_within_a_procedure() {
    let pts: Vec<(Program, usize)> = [4usize, 8, 16, 32].iter().map(|&n| (fields(n), 0)).collect();
    for rel in ["edge", "points", "path_used"] {
        let d = fit(rel, &pts);
        assert!(d > 1.5, "fields: {rel} grows as |P|^{d:.2}, expected ~quadratic");
    }
}

/// A vocabulary that names every path of the chain.
fn chained_fields(n: usize) -> Program {
    let mut prog = fields_chain(n);
    let mut whole: Vec<Accessor> = Vec::new();
    prog.paths.push((Suffix::empty(),));
    for i in 0..=n {
        let step = Accessor::Field(Field::from(format!("f{i}")));
        prog.paths.push((Suffix::from(vec![step.clone()]),));
        whole.push(step);
        prog.paths.push((Suffix::from(whole.clone()),));
    }
    prog
}

#[test]
fn access_path_depth_grows_with_call_depth() {
    for n in [2usize, 4, 8, 16] {
        let h = run_hybrid(&chained_fields(n), 0);
        let max = h
            .edge
            .iter()
            .flat_map(|(_, a, b)| [a.accessors.len(), b.accessors.len()])
            .max()
            .unwrap();
        assert_eq!(max, n + 1, "fields_chain({n}) deepest access path");
    }
}

#[test]
fn the_default_bound_stops_a_chain_of_calls_at_one_accessor() {
    for n in [2usize, 4, 8] {
        let h = run_hybrid(&fields_chain(n), 0);
        let max = h
            .edge
            .iter()
            .flat_map(|(_, a, b)| [a.accessors.len(), b.accessors.len()])
            .max()
            .unwrap();
        assert_eq!(max, 1, "fields_chain({n}) deepest access path");
    }
}

#[test]
fn recursion_through_a_field_load_terminates() {
    let h = run_hybrid(&recursive_field(), 2);
    assert!(h.edge.len() < 32, "recursive_field: edge = {}", h.edge.len());
    let deepest = h
        .edge
        .iter()
        .flat_map(|(_, a, b)| [a.accessors.len(), b.accessors.len()])
        .max()
        .unwrap();
    assert!(deepest <= 1, "recursive_field: access path grew to depth {deepest}");
}

#[test]
fn the_families_have_the_sizes_their_shapes_give() {
    assert_eq!(edb_size(&chain(3, 2)), edb_size(&chain(2, 2)) + 11);
    assert_eq!(edb_size(&targets(3)), edb_size(&chain(1, 3)));
    let w = wide(5, 3);
    assert!(w.virtual_call.is_empty());
    assert_eq!(w.procedure.len(), 5 + 2 + 1);
    assert_eq!(w.alloc.len(), 5 * 3 + 1);
    assert_eq!(w.mov.len(), 5 * 5 + 5 + 2);
    let f = fanin(3, 2);
    assert_eq!(f.direct_call.len(), 6);
    let types: Vec<String> = f.alloc_type.iter().map(|(_, t)| t.to_string()).collect();
    assert_eq!(types, ["Obj", "Obj", "C0", "C1", "C0"]);
    assert_eq!(dead_receiver().virtual_call.len(), 1);
    assert_eq!(alias(0).mov.len(), 1);
}

#[test]
fn nothing_is_pending_where_nothing_is_critical() {
    let h = run_hybrid(&wide(5, 3), 2);
    assert!(h.critical.is_empty());
    assert!(h.pending.is_empty());
    let res = h.points_to(&"Entry".into(), "res");
    assert_eq!(res.len(), 1 + 5 * 2);
}
