//! Paths, instances and values: how they are built, taken apart and printed.
use hybrid_inlining_paper::access_path::{AccessPath, Accessor, Base, Constraint, CritId, PtVal, Suffix};


#[test]
fn display_matches_the_papers_notation() {
    let map = AccessPath::param("getP", 1);
    assert_eq!(map.index(r#""cur""#).to_string(), r#"par_1@getP["cur"]"#);
    assert_eq!(map.index_unknown().to_string(), "par_1@getP[π]");
    assert_eq!(AccessPath::ret("getP").field("g").to_string(), "ret@getP.g");
    assert_eq!(AccessPath::var("tv").to_string(), "tv");

    let c = Constraint::Path {
        sup: AccessPath::ret("FacadeImpl.id"),
        sub: AccessPath::param("FacadeImpl.id", 1),
    };
    assert_eq!(c.to_string(), "ret@FacadeImpl.id ⊇ par_1@FacadeImpl.id");
}

#[test]
fn extending_a_path_leaves_the_original_untouched() {
    let map = AccessPath::param("getP", 1);
    let cur = map.index(r#""cur""#);
    assert!(map.is_base());
    assert!(!cur.is_base());
    assert_eq!(map.base, cur.base);
}

#[test]
fn a_crit_id_prints_its_call_string() {
    let c0 = CritId::origin("L25");
    assert_eq!(c0.to_string(), "⟨L25⟩");
    assert_eq!(c0.depth(), 0);

    let c1 = c0.push(&"L28".into());
    let c2 = c1.push(&"L31b".into());
    assert_eq!(c1.to_string(), "⟨L25@L28⟩");
    assert_eq!(c2.to_string(), "⟨L25@L28·L31b⟩");
    assert_eq!(c2.depth(), 2);

    assert_eq!(
        AccessPath::crit_slot(c2.clone(), 0).to_string(),
        "⟨L25@L28·L31b⟩:arg0"
    );
    assert_eq!(AccessPath::crit_ret(c2).to_string(), "⟨L25@L28·L31b⟩:res");
}

#[test]
fn nesting_splices_the_outer_call_string_on() {
    let inner = CritId::origin("L99").push(&"L50".into());
    let outer = CritId::origin("L25").push(&"L28".into());
    let nested = inner.nest(&outer);
    assert_eq!(nested.to_string(), "⟨L99@L50·L25·L28⟩");
    assert_eq!(nested.depth(), inner.nest_depth(&outer));
}

#[test]
fn rebasing_keeps_the_suffix_and_stripping_recovers_it() {
    let callee = AccessPath::param("getP", 1).index(r#""cur""#);
    let sigma = callee.rebase(Base::Var("map@caller".into()));
    assert_eq!(sigma.to_string(), r#"map@caller["cur"]"#);

    let root = AccessPath::var("map@caller");
    assert_eq!(sigma.strip_prefix(&root).unwrap().len(), 1);
    assert_eq!(root.strip_prefix(&sigma), None);
    assert_eq!(sigma.strip_prefix(&callee), None);
    assert_eq!(root.extend(sigma.strip_prefix(&root).unwrap()), sigma);
}

#[test]
fn only_locals_are_non_symbolic() {
    let id = CritId::origin("L25");
    assert!(!Base::Var("tv".into()).is_symbolic());
    assert!(Base::Param("foo".into(), 1).is_symbolic());
    assert!(Base::Ret("foo".into()).is_symbolic());
    assert!(Base::CritSlot(id.clone(), 0).is_symbolic());
    assert!(Base::CritRet(id.clone()).is_symbolic());
    assert_eq!(Base::CritRet(id.clone()).crit_id(), Some(&id));
    assert_eq!(Base::Ret("foo".into()).crit_id(), None);
}

#[test]
fn a_pt_value_renders_as_the_constraint_it_stands_for() {
    let ret = AccessPath::ret("Z.poly");
    assert_eq!(
        PtVal::Alloc("l14".into())
            .constrain(ret.clone())
            .to_string(),
        "ret@Z.poly ⊇ {l14}"
    );
    assert_eq!(
        PtVal::Path(AccessPath::param("Y.poly", 1))
            .constrain(AccessPath::ret("Y.poly"))
            .to_string(),
        "ret@Y.poly ⊇ par_1@Y.poly"
    );
    assert!(PtVal::Path(ret).is_path());
    assert!(!PtVal::Const("0".into()).is_path());
}

#[test]
fn a_constraint_yields_its_paths_lhs_first() {
    let l = AccessPath::ret("p");
    let r = AccessPath::param("p", 1);
    let subset = Constraint::Path {
        sup: l.clone(),
        sub: r.clone(),
    };
    assert_eq!(subset.paths(), vec![&l, &r]);
    let alloc = Constraint::Alloc {
        sup: l.clone(),
        sub: "l14".into(),
    };
    assert_eq!(alloc.paths(), vec![&l]);
}

#[test]
fn every_root_and_accessor_prints_in_its_own_way() {
    assert_eq!(Accessor::Field("f".into()).to_string(), ".f");
    assert_eq!(Accessor::Index("7".into()).to_string(), "[7]");
    assert_eq!(Accessor::IndexUnknown.to_string(), "[π]");
    assert_eq!(Base::Var("x".into()).to_string(), "x");
    assert_eq!(Base::Param("p".into(), 12).to_string(), "par_12@p");
    assert_eq!(Base::Ret("p".into()).to_string(), "ret@p");
    assert_eq!(Suffix::empty().to_string(), "ε");
    let deep = AccessPath::var("x").field("f").index("7").index_unknown();
    assert_eq!(deep.suffix().to_string(), ".f[7][π]");
    assert_eq!(deep.to_string(), "x.f[7][π]");
    assert_eq!(PtVal::Const("0".into()).to_string(), "{0}");
}

#[test]
fn splitting_a_suffix_lists_every_cut_from_the_left() {
    let f = Accessor::Field("f".into());
    let g = Accessor::Field("g".into());
    let whole = Suffix::from(vec![f.clone(), g.clone()]);
    let cuts = whole.splits();
    assert_eq!(cuts.len(), 2);
    assert_eq!(cuts[0], (Suffix::empty(), whole.clone()));
    assert_eq!(cuts[1], (Suffix::from(vec![f.clone()]), Suffix::from(vec![g.clone()])));
    assert!(Suffix::empty().splits().is_empty());
    for (a, b) in &cuts {
        assert_eq!(a.extended(b.as_slice()), whole);
    }
    assert_eq!(Suffix::from(vec![g]).prepended(&f), whole);
}

#[test]
fn nesting_adds_the_depths_and_one_for_the_site() {
    let inner = CritId::origin("a").push(&"b".into()).push(&"c".into());
    let outer = CritId::origin("d").push(&"e".into());
    assert_eq!(inner.nest_depth(&outer), 4);
    assert_eq!(inner.nest(&outer).depth(), 4);
    assert_eq!(CritId::origin("a").nest(&CritId::origin("d")).to_string(), "⟨a@d⟩");
}
