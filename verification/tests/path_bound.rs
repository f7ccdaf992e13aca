//! Which suffixes a program admits.
use hybrid_inlining_paper::access_path::{Accessor, Suffix};
use hybrid_inlining_paper::ir::{Field, Proc, Program, Stmt, Var};
use hybrid_inlining_paper::path_bound::{as_relation, for_program, install, syntactic, Bound};

fn v(s: &str) -> Var {
    Var::from(s)
}

fn shown(set: &[Suffix]) -> Vec<String> {
    set.iter().map(|s| s.to_string()).collect()
}

#[test]
fn consecutive_loads_are_concatenated() {
    let mut prog = Program::default();
    prog.in_proc = vec![
        (Stmt::from("S1"), Proc::from("p"), 0),
        (Stmt::from("S2"), Proc::from("p"), 1),
    ];
    prog.load_field = vec![
        (Stmt::from("S1"), v("t"), v("x"), Field::from("foo")),
        (Stmt::from("S2"), v("u"), v("t"), Field::from("bar")),
    ];

    assert_eq!(
        shown(&syntactic(&prog, &Bound::default())),
        ["ε", ".bar", ".foo", ".foo.bar"]
    );
}

#[test]
fn a_use_before_its_definition_does_not_concatenate() {
    let mut prog = Program::default();
    prog.in_proc = vec![
        (Stmt::from("S1"), Proc::from("p"), 1),
        (Stmt::from("S2"), Proc::from("p"), 0),
    ];
    prog.load_field = vec![
        (Stmt::from("S1"), v("t"), v("x"), Field::from("foo")),
        (Stmt::from("S2"), v("u"), v("t"), Field::from("bar")),
    ];

    assert_eq!(
        shown(&syntactic(&prog, &Bound::default())),
        ["ε", ".bar", ".foo"]
    );
}

#[test]
fn a_redefinition_ends_the_chain_through_a_variable() {
    let mut prog = Program::default();
    prog.in_proc = (0..3)
        .map(|n| (Stmt::from(format!("S{n}")), Proc::from("p"), n))
        .collect();
    prog.load_field = vec![
        (Stmt::from("S0"), v("t"), v("x"), Field::from("f")),
        (Stmt::from("S1"), v("t"), v("y"), Field::from("g")),
        (Stmt::from("S2"), v("u"), v("t"), Field::from("h")),
    ];

    assert_eq!(
        shown(&syntactic(&prog, &Bound::default())),
        ["ε", ".f", ".g", ".g.h", ".h"]
    );
}

#[test]
fn a_store_carries_the_suffixes_of_what_it_stores() {
    let mut prog = Program::default();
    prog.in_proc = vec![
        (Stmt::from("S1"), Proc::from("p"), 0),
        (Stmt::from("S2"), Proc::from("p"), 1),
    ];
    prog.store_field = vec![(Stmt::from("S1"), v("x"), Field::from("f"), v("t"))];
    prog.load_field = vec![(Stmt::from("S2"), v("u"), v("t"), Field::from("g"))];

    assert_eq!(
        shown(&syntactic(&prog, &Bound::default())),
        ["ε", ".f", ".f.g", ".g"]
    );
}

#[test]
fn a_move_relays_a_suffix_without_growing_it() {
    let mut prog = Program::default();
    prog.in_proc = vec![
        (Stmt::from("S1"), Proc::from("p"), 0),
        (Stmt::from("S2"), Proc::from("p"), 1),
        (Stmt::from("S3"), Proc::from("p"), 2),
    ];
    prog.load_field = vec![
        (Stmt::from("S1"), v("t"), v("x"), Field::from("foo")),
        (Stmt::from("S3"), v("u"), v("s"), Field::from("bar")),
    ];
    prog.mov = vec![(Stmt::from("S2"), v("s"), v("t"))];

    assert!(shown(&syntactic(&prog, &Bound::default())).contains(&".foo.bar".to_string()));
}

#[test]
fn concatenation_does_not_cross_a_procedure() {
    let mut prog = Program::default();
    prog.in_proc = vec![
        (Stmt::from("S1"), Proc::from("p"), 0),
        (Stmt::from("S2"), Proc::from("q"), 1),
    ];
    prog.load_field = vec![
        (Stmt::from("S1"), v("t"), v("x"), Field::from("foo")),
        (Stmt::from("S2"), v("u"), v("t"), Field::from("bar")),
    ];

    assert_eq!(
        shown(&syntactic(&prog, &Bound::default())),
        ["ε", ".bar", ".foo"]
    );
}

#[test]
fn a_field_does_not_repeat_unless_the_program_repeats_it() {
    let mut prog = Program::default();
    prog.in_proc = vec![
        (Stmt::from("S1"), Proc::from("p"), 0),
        (Stmt::from("S2"), Proc::from("p"), 1),
    ];
    prog.load_field = vec![
        (Stmt::from("S1"), v("t"), v("x"), Field::from("wl")),
        (Stmt::from("S2"), v("u"), v("y"), Field::from("wl")),
    ];

    let set = syntactic(&prog, &Bound::default());
    assert_eq!(shown(&set), ["ε", ".wl"]);
    assert!(!set.contains(&Suffix::from(vec![
        Accessor::Field(Field::from("wl")),
        Accessor::Field(Field::from("wl")),
    ])));
}

#[test]
fn the_knobs_move_the_set_in_the_directions_they_claim() {
    let mut prog = Program::default();
    prog.in_proc = (0..3)
        .map(|n| (Stmt::from(format!("S{n}")), Proc::from("p"), n))
        .collect();
    prog.load_field = vec![
        (Stmt::from("S0"), v("a"), v("x"), Field::from("f0")),
        (Stmt::from("S1"), v("b"), v("a"), Field::from("f1")),
        (Stmt::from("S2"), v("c"), v("b"), Field::from("f2")),
    ];

    let all = syntactic(&prog, &Bound::default());
    assert!(all.contains(&Suffix::from(vec![
        Accessor::Field(Field::from("f0")),
        Accessor::Field(Field::from("f1")),
        Accessor::Field(Field::from("f2")),
    ])));

    let capped = syntactic(
        &prog,
        &Bound {
            max_depth: Some(2),
            ..Bound::default()
        },
    );
    assert!(capped.iter().all(|s| s.len() <= 2));
    assert!(capped.len() < all.len());

    let joined = Suffix::from(vec![
        Accessor::Field(Field::from("f2")),
        Accessor::Field(Field::from("f0")),
    ]);
    assert!(!all.contains(&joined));
    assert!(
        syntactic(
            &prog,
            &Bound {
                fold: 2,
                ..Bound::default()
            }
        )
        .contains(&joined)
    );
}

#[test]
fn a_supplied_set_is_used_verbatim() {
    let mut prog = Program::default();
    prog.in_proc = vec![(Stmt::from("S1"), Proc::from("p"), 0)];
    prog.load_field = vec![(Stmt::from("S1"), v("t"), v("x"), Field::from("foo"))];
    prog.paths = vec![(Suffix::empty(),)];

    assert_eq!(shown(&for_program(&prog)), ["ε"]);
    prog.paths.clear();
    assert_eq!(shown(&for_program(&prog)), ["ε", ".foo"]);
}

#[test]
fn folding_the_set_is_capped_by_the_depth() {
    let mut prog = Program::default();
    prog.in_proc = vec![(Stmt::from("S0"), Proc::from("p"), 0)];
    prog.load_field = vec![(Stmt::from("S0"), v("a"), v("x"), Field::from("f"))];
    let bound = Bound { max_depth: Some(3), fold: 9 };
    assert_eq!(shown(&syntactic(&prog, &bound)), ["ε", ".f", ".f.f", ".f.f.f"]);
    let none = Bound { max_depth: Some(0), fold: 9 };
    assert_eq!(shown(&syntactic(&prog, &none)), ["ε"]);
}

#[test]
fn installing_a_bound_writes_the_set_into_the_program() {
    let mut prog = Program::default();
    prog.in_proc = vec![(Stmt::from("S0"), Proc::from("p"), 0)];
    prog.load_field = vec![(Stmt::from("S0"), v("a"), v("x"), Field::from("f"))];
    install(&mut prog, &Bound::default());
    assert_eq!(prog.paths.len(), 2);
    assert_eq!(as_relation(&for_program(&prog)), prog.paths);
}

#[test]
fn an_allocation_over_a_variable_ends_the_chain_through_it_as_well() {
    let mut prog = Program::default();
    prog.in_proc = (0..3)
        .map(|n| (Stmt::from(format!("S{n}")), Proc::from("p"), n))
        .collect();
    prog.load_field = vec![
        (Stmt::from("S0"), v("t"), v("x"), Field::from("f")),
        (Stmt::from("S2"), v("u"), v("t"), Field::from("h")),
    ];
    prog.alloc = vec![(Stmt::from("S1"), v("t"), "l1".into())];
    assert_eq!(shown(&syntactic(&prog, &Bound::default())), ["ε", ".f", ".h"]);
}

#[test]
fn indices_extend_a_path_where_they_can_be_decided() {
    let mut prog = Program::default();
    prog.in_proc = (0..3)
        .map(|n| (Stmt::from(format!("S{n}")), Proc::from("p"), n))
        .collect();
    prog.load_index_const = vec![(Stmt::from("S0"), v("t"), v("x"), "0".into())];
    prog.load_index_var = vec![(Stmt::from("S1"), v("u"), v("t"), v("i"))];
    prog.const_assign = vec![(Stmt::from("S2"), v("i"), "1".into())];
    assert_eq!(
        shown(&syntactic(&prog, &Bound::default())),
        ["ε", "[0]", "[0][0]", "[0][1]", "[0][π]", "[1]", "[π]"]
    );
}

#[test]
fn a_suffix_is_no_longer_than_its_procedure() {
    let mut prog = Program::default();
    prog.in_proc = (0..4)
        .map(|n| (Stmt::from(format!("S{n}")), Proc::from("p"), n))
        .collect();
    prog.load_field = (0..4)
        .map(|n| {
            let to = Var::from(format!("v{}", n + 1));
            (Stmt::from(format!("S{n}")), to, Var::from(format!("v{n}")), Field::from("f"))
        })
        .collect();
    let all = syntactic(&prog, &Bound::default());
    assert_eq!(all.iter().map(|s| s.len()).max(), Some(4));
    for d in 0..6 {
        let capped = syntactic(&prog, &Bound { max_depth: Some(d), fold: 1 });
        let fitting: Vec<Suffix> = all.iter().filter(|s| s.len() <= d).cloned().collect();
        assert_eq!(capped, fitting);
    }
}

#[test]
fn installing_a_bound_again_changes_nothing() {
    let mut prog = Program::default();
    prog.in_proc = vec![
        (Stmt::from("S1"), Proc::from("p"), 0),
        (Stmt::from("S2"), Proc::from("p"), 1),
    ];
    prog.load_field = vec![
        (Stmt::from("S1"), v("t"), v("x"), Field::from("foo")),
        (Stmt::from("S2"), v("u"), v("t"), Field::from("bar")),
    ];
    let bound = Bound { max_depth: None, fold: 2 };
    let before = syntactic(&prog, &bound);
    install(&mut prog, &bound);
    let once: Vec<Suffix> = prog.paths.iter().map(|(s,)| s.clone()).collect();
    assert_eq!(once, before, "in order, each suffix once");
    assert_eq!(syntactic(&prog, &bound), before, "the syntax does not read the vocabulary");
    install(&mut prog, &bound);
    let twice: Vec<Suffix> = prog.paths.iter().map(|(s,)| s.clone()).collect();
    assert_eq!(twice, once);
    assert_eq!(for_program(&prog), before);
    assert_eq!(prog.load_field.len(), 2);
}
