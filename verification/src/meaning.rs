//! What a finished analysis says, relation by relation.
//!
//! Every tuple of every relation has a reason among the facts and the other tuples, and
//! every reason has its tuple. The reasons are spelled out on the facts and on the lists
//! themselves, one law for each group of relations.
use vstd::prelude::*;

use crate::access_path::{Instance, Path, Root, Step, Value};
use crate::analysis::{run_hybrid, HybridAnalysis};
use crate::ir::{self, ArgIdx, Name, Program, Symbol};
use crate::laws;
use crate::report::held_anywhere;
use crate::rules::{self, Core, Setting, Syn};
use crate::tuples::tuples;

verus! {

// ---------------------------------------------------------------------------
// The lists
// ---------------------------------------------------------------------------

/// The relations of an analysis, each as the set of its tuples.
pub struct Answers {
    pub sig_target: Set<(Name, Name)>,
    pub sig_size: Set<(Name, usize)>,
    pub mono_target: Set<(Name, Name)>,
    pub eff_direct: Set<(Name, Name)>,
    pub critical: Set<(Name,)>,
    pub known_proc: Set<(Name,)>,
    pub is_called: Set<(Name,)>,
    pub uncalled: Set<(Name,)>,
    pub edge: Set<(Name, Path, Path)>,
    pub points: Set<(Name, Path, Value)>,
    pub path_used: Set<(Name, Root, Path)>,
    pub crit_origin: Set<(Name, Name, Instance)>,
    pub pending: Set<(Name, Instance)>,
    pub can_propagate: Set<(Name, Instance)>,
    pub carries: Set<(Name, Name, ArgIdx)>,
    pub decisive_var: Set<(Name, Name)>,
    pub slot_from_formal: Set<(Name, Instance, ArgIdx)>,
    pub will_propagate: Set<(Name, Instance)>,
    pub stuck: Set<(Name, Instance)>,
    pub crit_operand: Set<(Instance, ArgIdx)>,
    pub call_crit: Set<(Instance,)>,
    pub load_crit: Set<(Instance,)>,
    pub store_crit: Set<(Instance,)>,
    pub index_crit: Set<(Instance,)>,
    pub decisive_slot: Set<(Instance, ArgIdx)>,
    pub crit_sig: Set<(Instance, Name)>,
    pub free_root: Set<(Name, Root)>,
    pub pub_root: Set<(Name, Root)>,
    pub pub_points: Set<(Name, Path, Value)>,
    pub root_map: Set<(Name, Root, Root)>,
    pub blocked: Set<(Name, Instance)>,
    pub top: Set<(Name, Instance)>,
    pub resolve: Set<(Name, Instance, Name)>,
    pub index_undecidable: Set<(Name, Instance)>,
    pub index_acc: Set<(Name, Instance, Step)>,
    pub adequate: Set<(Name, Instance)>,
    pub settled: Set<(Name, Instance)>,
}

/// What the lists of an analysis hold.
pub open spec fn answers(h: &HybridAnalysis) -> Answers {
    Answers {
        sig_target: tuples(h.sig_target@),
        sig_size: tuples(h.sig_size@),
        mono_target: tuples(h.mono_target@),
        eff_direct: tuples(h.eff_direct@),
        critical: tuples(h.critical@),
        known_proc: tuples(h.known_proc@),
        is_called: tuples(h.is_called@),
        uncalled: tuples(h.uncalled@),
        edge: tuples(h.edge@),
        points: tuples(h.points@),
        path_used: tuples(h.path_used@),
        crit_origin: tuples(h.crit_origin@),
        pending: tuples(h.pending@),
        can_propagate: tuples(h.can_propagate@),
        carries: tuples(h.carries@),
        decisive_var: tuples(h.decisive_var@),
        slot_from_formal: tuples(h.slot_from_formal@),
        will_propagate: tuples(h.will_propagate@),
        stuck: tuples(h.stuck@),
        crit_operand: tuples(h.crit_operand@),
        call_crit: tuples(h.call_crit@),
        load_crit: tuples(h.load_crit@),
        store_crit: tuples(h.store_crit@),
        index_crit: tuples(h.index_crit@),
        decisive_slot: tuples(h.decisive_slot@),
        crit_sig: tuples(h.crit_sig@),
        free_root: tuples(h.free_root@),
        pub_root: tuples(h.pub_root@),
        pub_points: tuples(h.pub_points@),
        root_map: tuples(h.root_map@),
        blocked: tuples(h.blocked@),
        top: tuples(h.top@),
        resolve: tuples(h.resolve@),
        index_undecidable: tuples(h.index_undecidable@),
        index_acc: tuples(h.index_acc@),
        adequate: tuples(h.adequate@),
        settled: tuples(h.settled@),
    }
}

/// A relation holds what its list has an entry for, and nothing else.
pub proof fn law_relations_are_their_entries<T: View>(v: Seq<T>, x: T::V)
    ensures
        tuples(v).contains(x) <==> exists|i: int| 0 <= i < v.len() && (#[trigger] v[i])@ == x,
{
}

proof fn lemma_ones<A: Symbol>(v: Seq<(A,)>)
    ensures
        forall|a: Name| #[trigger] ir::one_set(v).contains(a) <==> tuples(v).contains((a,)),
{
    assert forall|a: Name| #[trigger] ir::one_set(v).contains(a) <==> tuples(v).contains((a,)) by {
        if ir::one_set(v).contains(a) {
            let i = choose|i: int| 0 <= i < v.len() && ir::one_view(#[trigger] v[i]) == a;
            assert(v[i]@ == (a,));
        }
        if tuples(v).contains((a,)) {
            let i = choose|i: int| 0 <= i < v.len() && (#[trigger] v[i])@ == (a,);
            assert(ir::one_view(v[i]) == a);
        }
    }
}

proof fn lemma_twos<A: Symbol, B: Symbol>(v: Seq<(A, B)>)
    ensures
        ir::two_set(v) == tuples(v),
{
    assert forall|x: (Name, Name)| ir::two_set(v).contains(x) <==> tuples(v).contains(x) by {
        if ir::two_set(v).contains(x) {
            let i = choose|i: int| 0 <= i < v.len() && ir::two_view(#[trigger] v[i]) == x;
            assert(v[i]@ == x);
        }
        if tuples(v).contains(x) {
            let i = choose|i: int| 0 <= i < v.len() && (#[trigger] v[i])@ == x;
            assert(ir::two_view(v[i]) == x);
        }
    }
    assert(ir::two_set(v) =~= tuples(v));
}

proof fn lemma_placed<A: Symbol, B: Symbol>(v: Seq<(A, B, usize)>)
    ensures
        ir::placed_set(v) == tuples(v),
{
    assert forall|x: (Name, Name, usize)| ir::placed_set(v).contains(x) <==> tuples(v).contains(
        x,
    ) by {
        if ir::placed_set(v).contains(x) {
            let i = choose|i: int| 0 <= i < v.len() && ir::placed_view(#[trigger] v[i]) == x;
            assert(v[i]@ == x);
        }
        if tuples(v).contains(x) {
            let i = choose|i: int| 0 <= i < v.len() && (#[trigger] v[i])@ == x;
            assert(ir::placed_view(v[i]) == x);
        }
    }
    assert(ir::placed_set(v) =~= tuples(v));
}

proof fn lemma_threes<A: Symbol, B: Symbol, C: Symbol>(v: Seq<(A, B, C)>)
    ensures
        ir::three_set(v) == tuples(v),
{
    assert forall|x: (Name, Name, Name)| ir::three_set(v).contains(x) <==> tuples(v).contains(
        x,
    ) by {
        if ir::three_set(v).contains(x) {
            let i = choose|i: int| 0 <= i < v.len() && ir::three_view(#[trigger] v[i]) == x;
            assert(v[i]@ == x);
        }
        if tuples(v).contains(x) {
            let i = choose|i: int| 0 <= i < v.len() && (#[trigger] v[i])@ == x;
            assert(ir::three_view(v[i]) == x);
        }
    }
    assert(ir::three_set(v) =~= tuples(v));
}

proof fn lemma_fours<A: Symbol, B: Symbol, C: Symbol, D: Symbol>(v: Seq<(A, B, C, D)>)
    ensures
        ir::four_set(v) == tuples(v),
{
    assert forall|x: (Name, Name, Name, Name)| ir::four_set(v).contains(x) <==> tuples(
        v,
    ).contains(x) by {
        if ir::four_set(v).contains(x) {
            let i = choose|i: int| 0 <= i < v.len() && ir::four_view(#[trigger] v[i]) == x;
            assert(v[i]@ == x);
        }
        if tuples(v).contains(x) {
            let i = choose|i: int| 0 <= i < v.len() && (#[trigger] v[i])@ == x;
            assert(ir::four_view(v[i]) == x);
        }
    }
    assert(ir::four_set(v) =~= tuples(v));
}

proof fn lemma_indexed<A: Symbol, C: Symbol>(v: Seq<(A, usize, C)>)
    ensures
        ir::indexed_set(v) == tuples(v),
{
    assert forall|x: (Name, usize, Name)| ir::indexed_set(v).contains(x) <==> tuples(v).contains(
        x,
    ) by {
        if ir::indexed_set(v).contains(x) {
            let i = choose|i: int| 0 <= i < v.len() && ir::indexed_view(#[trigger] v[i]) == x;
            assert(v[i]@ == x);
        }
        if tuples(v).contains(x) {
            let i = choose|i: int| 0 <= i < v.len() && (#[trigger] v[i])@ == x;
            assert(ir::indexed_view(v[i]) == x);
        }
    }
    assert(ir::indexed_set(v) =~= tuples(v));
}

/// The facts of a program are the entries of its lists.
pub proof fn law_facts_are_the_lists(prog: Program, a: Name, rho: Seq<Step>)
    ensures
        prog@.procedure.contains(a) <==> tuples(prog.procedure@).contains((a,)),
        prog@.proc_type == tuples(prog.proc_type@),
        prog@.proc_sig == tuples(prog.proc_sig@),
        prog@.entry.contains(a) <==> tuples(prog.entry@).contains((a,)),
        prog@.in_proc == tuples(prog.in_proc@),
        prog@.alloc == tuples(prog.alloc@),
        prog@.alloc_type == tuples(prog.alloc_type@),
        prog@.const_assign == tuples(prog.const_assign@),
        prog@.mov == tuples(prog.mov@),
        prog@.load_field == tuples(prog.load_field@),
        prog@.store_field == tuples(prog.store_field@),
        prog@.load_static == tuples(prog.load_static@),
        prog@.store_static == tuples(prog.store_static@),
        prog@.load_index_const == tuples(prog.load_index_const@),
        prog@.store_index_const == tuples(prog.store_index_const@),
        prog@.load_index_var == tuples(prog.load_index_var@),
        prog@.store_index_var == tuples(prog.store_index_var@),
        prog@.direct_call == tuples(prog.direct_call@),
        prog@.virtual_call == tuples(prog.virtual_call@),
        prog@.actual_arg == tuples(prog.actual_arg@),
        prog@.bind_ret == tuples(prog.bind_ret@),
        prog@.formal == tuples(prog.formal@),
        prog@.ret == tuples(prog.ret@),
        prog@.direct_subtype == tuples(prog.direct_subtype@),
        prog@.lookup == tuples(prog.lookup@),
        prog@.paths.contains(rho) <==> exists|i: int|
            0 <= i < prog.paths@.len() && (#[trigger] prog.paths@[i]).0@ == rho,
{
    lemma_ones(prog.procedure@);
    lemma_twos(prog.proc_type@);
    lemma_twos(prog.proc_sig@);
    lemma_ones(prog.entry@);
    lemma_placed(prog.in_proc@);
    lemma_threes(prog.alloc@);
    lemma_twos(prog.alloc_type@);
    lemma_threes(prog.const_assign@);
    lemma_threes(prog.mov@);
    lemma_fours(prog.load_field@);
    lemma_fours(prog.store_field@);
    lemma_fours(prog.load_static@);
    lemma_fours(prog.store_static@);
    lemma_fours(prog.load_index_const@);
    lemma_fours(prog.store_index_const@);
    lemma_fours(prog.load_index_var@);
    lemma_fours(prog.store_index_var@);
    lemma_twos(prog.direct_call@);
    lemma_threes(prog.virtual_call@);
    lemma_indexed(prog.actual_arg@);
    lemma_twos(prog.bind_ret@);
    lemma_indexed(prog.formal@);
    lemma_twos(prog.ret@);
    lemma_twos(prog.direct_subtype@);
    lemma_threes(prog.lookup@);
    let v = prog.paths@;
    if exists|i: int| 0 <= i < v.len() && (#[trigger] v[i]).0@ == rho {
        let i = choose|i: int| 0 <= i < v.len() && (#[trigger] v[i]).0@ == rho;
        assert(v[i].0@ == rho);
    }
}

/// The bare path of a root.
pub open spec fn bare(root: Root) -> Path {
    Path { root, steps: Seq::empty() }
}

/// The root extended by one accessor.
pub open spec fn off(root: Root, step: Step) -> Path {
    Path { root, steps: seq![step] }
}

// ---------------------------------------------------------------------------
// What the facts settle
// ---------------------------------------------------------------------------

proof fn lemma_targets_finite(prog: Program, g: Name)
    ensures
        prog@.targets(g).finite(),
{
    let v = prog.lookup@;
    let names = Seq::new(v.len(), |i: int| v[i].2@);
    vstd::seq_lib::seq_to_set_is_finite(names);
    assert forall|p: Name| prog@.targets(g).contains(p) implies names.to_set().contains(p) by {
        let t = choose|t: Name| prog@.lookup.contains((t, g, p));
        let i = choose|i: int| 0 <= i < v.len() && ir::three_view(#[trigger] v[i]) == (t, g, p);
        assert(names[i] == p);
    }
    vstd::set_lib::lemma_len_subset(prog@.targets(g), names.to_set());
}

/// A set with one element holds nothing else.
proof fn lemma_one(set: Set<Name>, p: Name)
    requires
        set.finite(),
        set.contains(p),
    ensures
        set.len() == 1 <==> forall|q: Name| #[trigger] set.contains(q) ==> q == p,
        set.len() > 0,
{
    let rest = set.remove(p);
    if set.len() == 1 {
        assert(rest.len() == 0);
        assert forall|q: Name| #[trigger] set.contains(q) implies q == p by {
            if q != p {
                assert(rest.contains(q));
                assert(rest.remove(q).len() == rest.len() - 1);
            }
        }
    }
    if forall|q: Name| #[trigger] set.contains(q) ==> q == p {
        assert(rest =~= Set::empty());
    }
}

/// The targets of a signature are the implementations that some receiver type selects,
/// and its size is how many there are.
pub proof fn law_targets_of_a_signature(h: &HybridAnalysis, seed: Core, g: Name, p: Name, n: usize)
    requires
        h.derived_from(seed),
    ensures
        answers(h).sig_target.contains((g, p)) <==> exists|t: Name|
            h.program@.lookup.contains((t, g, p)),
        answers(h).sig_size.contains((g, n)) <==> n == Set::new(
            |q: Name| exists|t: Name| h.program@.lookup.contains((t, g, q)),
        ).len() && exists|s: Name, r: Name| h.program@.virtual_call.contains((s, r, g)),
{
    let e = h.program@;
    assert(e.targets(g) =~= Set::new(|q: Name| exists|t: Name| e.lookup.contains((t, g, q))));
}

/// A call has a known callee where it names it, and where its signature has one target
/// whatever the receiver: then the call is that target's.
pub proof fn law_known_callees(h: &HybridAnalysis, seed: Core, s: Name, p: Name)
    requires
        h.derived_from(seed),
    ensures
        answers(h).mono_target.contains((s, p)) <==> exists|r: Name, g: Name|
            {
                &&& #[trigger] h.program@.virtual_call.contains((s, r, g))
                &&& exists|t: Name| h.program@.lookup.contains((t, g, p))
                &&& forall|t: Name, q: Name| #[trigger]
                    h.program@.lookup.contains((t, g, q)) ==> q == p
            },
        answers(h).eff_direct.contains((s, p)) <==> h.program@.direct_call.contains((s, p))
            || answers(h).mono_target.contains((s, p)),
{
    let e = h.program@;
    assert forall|r: Name, g: Name| #[trigger] e.virtual_call.contains((s, r, g)) implies (
    e.targets(g).len() == 1 && e.sig_target(g, p) <==> (exists|t: Name|
        e.lookup.contains((t, g, p))) && forall|t: Name, q: Name| #[trigger]
        e.lookup.contains((t, g, q)) ==> q == p) by {
        lemma_targets_finite(h.program, g);
        if e.sig_target(g, p) {
            lemma_one(e.targets(g), p);
            if e.targets(g).len() == 1 {
                assert forall|t: Name, q: Name| #[trigger]
                    e.lookup.contains((t, g, q)) implies q == p by {
                    assert(e.sig_target(g, q));
                    assert(e.targets(g).contains(q));
                }
            }
            if forall|t: Name, q: Name| #[trigger] e.lookup.contains((t, g, q)) ==> q == p {
                assert forall|q: Name| #[trigger] e.targets(g).contains(q) implies q == p by {
                    let t = choose|t: Name| e.lookup.contains((t, g, q));
                    assert(e.lookup.contains((t, g, q)));
                }
            }
        }
    }
}

/// A statement is critical where it dispatches a signature with two targets, and where it
/// reads or writes through a variable index.
pub proof fn law_critical_statements(h: &HybridAnalysis, seed: Core, s: Name)
    requires
        h.derived_from(seed),
    ensures
        answers(h).critical.contains((s,)) <==> {
            ||| exists|r: Name, g: Name, t: Name, p: Name, u: Name, q: Name|
                {
                    &&& #[trigger] h.program@.virtual_call.contains((s, r, g))
                    &&& #[trigger] h.program@.lookup.contains((t, g, p))
                    &&& #[trigger] h.program@.lookup.contains((u, g, q))
                    &&& p != q
                }
            ||| exists|to: Name, base: Name, i: Name|
                h.program@.load_index_var.contains((s, to, base, i))
            ||| exists|base: Name, i: Name, from: Name|
                h.program@.store_index_var.contains((s, base, i, from))
        },
{
    let e = h.program@;
    assert(answers(h).critical.contains((s,)) <==> e.critical(s));
    if exists|r: Name, g: Name| #[trigger]
        e.virtual_call.contains((s, r, g)) && e.targets(g).len() > 1 {
        let (r, g) = choose|r: Name, g: Name| #[trigger]
            e.virtual_call.contains((s, r, g)) && e.targets(g).len() > 1;
        let set = e.targets(g);
        lemma_targets_finite(h.program, g);
        let p = set.choose();
        assert(set.contains(p));
        lemma_one(set, p);
        let q = choose|q: Name| #[trigger] set.contains(q) && q != p;
        let t = choose|t: Name| e.lookup.contains((t, g, p));
        let u = choose|u: Name| e.lookup.contains((u, g, q));
        assert(e.virtual_call.contains((s, r, g)) && e.lookup.contains((t, g, p))
            && e.lookup.contains((u, g, q)));
    }
    if exists|r: Name, g: Name, t: Name, p: Name, u: Name, q: Name|
        {
            &&& #[trigger] e.virtual_call.contains((s, r, g))
            &&& #[trigger] e.lookup.contains((t, g, p))
            &&& #[trigger] e.lookup.contains((u, g, q))
            &&& p != q
        } {
        let (r, g, t, p, u, q) = choose|r: Name, g: Name, t: Name, p: Name, u: Name, q: Name|
            {
                &&& #[trigger] e.virtual_call.contains((s, r, g))
                &&& #[trigger] e.lookup.contains((t, g, p))
                &&& #[trigger] e.lookup.contains((u, g, q))
                &&& p != q
            };
        lemma_targets_finite(h.program, g);
        assert(e.sig_target(g, p) && e.sig_target(g, q));
        assert(e.targets(g).contains(q));
        lemma_one(e.targets(g), p);
        assert(e.virtual_call.contains((s, r, g)) && e.targets(g).len() > 1);
    }
}

/// The procedures are those the facts list and those with a statement. One is called
/// where a placed statement has it as its known callee, and uncalled otherwise.
pub proof fn law_procedures(h: &HybridAnalysis, seed: Core, p: Name)
    requires
        h.derived_from(seed),
    ensures
        answers(h).known_proc.contains((p,)) <==> h.program@.procedure.contains(p) || exists|
            s: Name,
            n: usize,
        | h.program@.in_proc.contains((s, p, n)),
        answers(h).is_called.contains((p,)) <==> exists|s: Name, q: Name, n: usize| #[trigger]
            h.program@.in_proc.contains((s, q, n)) && answers(h).eff_direct.contains((s, p)),
        answers(h).uncalled.contains((p,)) <==> answers(h).known_proc.contains((p,))
            && !answers(h).is_called.contains((p,)),
{
    let e = h.program@;
    assert(answers(h).known_proc.contains((p,)) <==> e.known_proc(p));
    assert(answers(h).is_called.contains((p,)) <==> e.is_called(p));
    assert(answers(h).uncalled.contains((p,)) <==> e.uncalled(p));
    if exists|s: Name, n: usize| e.in_proc.contains((s, p, n)) {
        let (s, n) = choose|s: Name, n: usize| e.in_proc.contains((s, p, n));
        assert(e.stands_in(s, p));
    }
    if exists|s: Name, q: Name, n: usize| #[trigger]
        e.in_proc.contains((s, q, n)) && answers(h).eff_direct.contains((s, p)) {
        let (s, q, n) = choose|s: Name, q: Name, n: usize| #[trigger]
            e.in_proc.contains((s, q, n)) && answers(h).eff_direct.contains((s, p));
        assert(e.stands_in(s, q));
        assert(e.eff_direct(s, p) && e.located(s));
    }
    if e.is_called(p) {
        let s = choose|s: Name| #[trigger] e.eff_direct(s, p) && e.located(s);
        let q = choose|q: Name| e.stands_in(s, q);
        let n = choose|n: usize| e.in_proc.contains((s, q, n));
        assert(e.in_proc.contains((s, q, n)) && answers(h).eff_direct.contains((s, p)));
    }
}

/// A critical statement has one instance where it stands, without a call string; the
/// operand that decides it is the receiver of a call and the index of an access.
pub proof fn law_instances_originate(
    h: &HybridAnalysis,
    seed: Core,
    p: Name,
    s: Name,
    id: Instance,
    v: Name,
)
    requires
        h.derived_from(seed),
    ensures
        answers(h).crit_origin.contains((p, s, id)) <==> {
            &&& answers(h).critical.contains((s,))
            &&& exists|n: usize| h.program@.in_proc.contains((s, p, n))
            &&& id.stmt == s
            &&& id.chain.len() == 0
        },
        answers(h).decisive_var.contains((s, v)) <==> {
            ||| exists|g: Name| h.program@.virtual_call.contains((s, v, g))
            ||| exists|to: Name, base: Name| h.program@.load_index_var.contains((s, to, base, v))
            ||| exists|base: Name, from: Name|
                h.program@.store_index_var.contains((s, base, v, from))
        },
{
    let e = h.program@;
    assert(answers(h).crit_origin.contains((p, s, id)) <==> e.crit_origin(p, s, id));
    if id.chain.len() == 0 {
        assert(id.chain =~= Seq::<Name>::empty());
    }
    assert(answers(h).decisive_var.contains((s, v)) <==> e.decisive_var(s, v));
}

// ---------------------------------------------------------------------------
// Pending instances
// ---------------------------------------------------------------------------

proof fn lemma_held(m: Core, id: Instance)
    ensures
        held_anywhere(m).contains((id,)) <==> exists|p: Name| m.pending.contains((p, id)),
{
    let x = (id,);
    assert(x.0 == id);
    if exists|p: Name| m.pending.contains((p, id)) {
        let p = choose|p: Name| m.pending.contains((p, id));
        assert(m.pending.contains((p, x.0)));
    }
    if held_anywhere(m).contains(x) {
        let p = choose|p: Name| m.pending.contains((p, x.0));
        assert(m.pending.contains((p, id)));
    }
}

/// What kind of statement a pending instance stands for, its operands, the one that
/// decides it, and the signature it dispatches, all read off the statement.
pub proof fn law_kinds_of_instances(
    h: &HybridAnalysis,
    seed: Core,
    id: Instance,
    i: ArgIdx,
    g: Name,
)
    requires
        h.derived_from(seed),
    ensures
        answers(h).call_crit.contains((id,)) <==> {
            &&& exists|p: Name| answers(h).pending.contains((p, id))
            &&& exists|r: Name, sig: Name| h.program@.virtual_call.contains((id.stmt, r, sig))
        },
        answers(h).load_crit.contains((id,)) <==> {
            &&& exists|p: Name| answers(h).pending.contains((p, id))
            &&& exists|to: Name, base: Name, x: Name|
                h.program@.load_index_var.contains((id.stmt, to, base, x))
        },
        answers(h).store_crit.contains((id,)) <==> {
            &&& exists|p: Name| answers(h).pending.contains((p, id))
            &&& exists|base: Name, x: Name, from: Name|
                h.program@.store_index_var.contains((id.stmt, base, x, from))
        },
        answers(h).index_crit.contains((id,)) <==> answers(h).load_crit.contains((id,))
            || answers(h).store_crit.contains((id,)),
        answers(h).crit_operand.contains((id, i)) <==> {
            ||| (exists|p: Name| answers(h).pending.contains((p, id))) && exists|a: Name|
                h.program@.actual_arg.contains((id.stmt, i, a))
            ||| answers(h).index_crit.contains((id,)) && (i == 0 || i == 1)
            ||| answers(h).store_crit.contains((id,)) && i == 2
        },
        answers(h).decisive_slot.contains((id, i)) <==> {
            ||| answers(h).call_crit.contains((id,)) && i == 0
            ||| answers(h).index_crit.contains((id,)) && i == 1
        },
        answers(h).crit_sig.contains((id, g)) <==> {
            &&& exists|p: Name| answers(h).pending.contains((p, id))
            &&& exists|r: Name| h.program@.virtual_call.contains((id.stmt, r, g))
        },
{
    let (w, m, r) = (h.setting(), h.said(), answers(h));
    let held = held_anywhere(m).contains((id,));
    lemma_held(m, id);
    assert(r.pending == m.pending);
    assert(held <==> exists|p: Name| r.pending.contains((p, id)));
    assert(r.call_crit.contains((id,)) <==> held && w.e.call_stmt(id.stmt));
    assert(r.load_crit.contains((id,)) <==> held && w.e.load_stmt(id.stmt));
    assert(r.store_crit.contains((id,)) <==> held && w.e.store_stmt(id.stmt));
    assert(r.index_crit.contains((id,)) <==> held && w.e.index_stmt(id.stmt));
    assert(r.crit_operand.contains((id, i)) <==> held && w.e.operand(id.stmt, i));
    assert(r.decisive_slot.contains((id, i)) <==> held && w.e.decisive(id.stmt, i));
    assert(r.crit_sig.contains((id, g)) <==> held && w.e.dispatches(id.stmt, g));
}

/// Where an instance may still go: it moves on from a called procedure while its call
/// string is shorter than the limit, and is stuck where nothing calls the holder, where
/// the holder is an entry, and at the limit.
pub proof fn law_where_instances_go(h: &HybridAnalysis, seed: Core, p: Name, id: Instance)
    requires
        h.derived_from(seed),
    ensures
        answers(h).can_propagate.contains((p, id)) <==> {
            &&& answers(h).pending.contains((p, id))
            &&& answers(h).is_called.contains((p,))
            &&& id.chain.len() < h.k_limit
        },
        answers(h).will_propagate.contains((p, id)) <==> {
            &&& exists|i: ArgIdx| answers(h).slot_from_formal.contains((p, id, i))
            &&& answers(h).is_called.contains((p,))
            &&& id.chain.len() < h.k_limit
        },
        answers(h).stuck.contains((p, id)) <==> {
            &&& answers(h).pending.contains((p, id))
            &&& answers(h).uncalled.contains((p,)) || h.program@.entry.contains(p)
                || id.chain.len() >= h.k_limit
        },
{
    let (w, m, r) = (h.setting(), h.said(), answers(h));
    assert(r.slot_from_formal == w.syn.slots);
    assert(r.will_propagate.contains((p, id)) <==> w.will_propagate(p, id));
}

/// The roots that a caller can still change, and those that a summary publishes: formals
/// and the return value always; a placeholder is published wherever it is pending, and is
/// the caller's only while it can move on.
pub proof fn law_roots(h: &HybridAnalysis, seed: Core, p: Name, q: Name, id: Instance, i: ArgIdx)
    requires
        h.derived_from(seed),
    ensures
        answers(h).free_root.contains((p, Root::Param(q, i))) <==> q == p && exists|v: Name|
            h.program@.formal.contains((p, i, v)),
        answers(h).free_root.contains((p, Root::Ret(q))) <==> q == p
            && answers(h).known_proc.contains((p,)),
        answers(h).free_root.contains((p, Root::Slot(id, i))) <==> answers(
            h,
        ).can_propagate.contains((p, id)) && answers(h).crit_operand.contains((id, i)),
        answers(h).free_root.contains((p, Root::Res(id))) <==> answers(h).can_propagate.contains(
            (p, id),
        ),
        !answers(h).free_root.contains((p, Root::Var(q))),
        answers(h).pub_root.contains((p, Root::Param(q, i))) <==> q == p && exists|v: Name|
            h.program@.formal.contains((p, i, v)),
        answers(h).pub_root.contains((p, Root::Ret(q))) <==> q == p
            && answers(h).known_proc.contains((p,)),
        answers(h).pub_root.contains((p, Root::Slot(id, i))) <==> answers(h).pending.contains(
            (p, id),
        ) && answers(h).crit_operand.contains((id, i)),
        answers(h).pub_root.contains((p, Root::Res(id))) <==> answers(h).pending.contains((p, id)),
        !answers(h).pub_root.contains((p, Root::Var(q))),
{
    law_kinds_of_instances(h, seed, id, i, p);
    let (w, m, r) = (h.setting(), h.said(), answers(h));
    assert(r.pending == m.pending);
    if m.pending.contains((p, id)) {
        assert(r.pending.contains((p, id)));
        lemma_held(m, id);
        assert(held_anywhere(m).contains((id,)));
    }
    assert(r.crit_operand.contains((id, i)) <==> held_anywhere(m).contains((id,)) && w.e.operand(
        id.stmt,
        i,
    ));
}

/// A procedure publishes every allocation and every constant at a published root,
/// whatever follows the root, and no path.
pub proof fn law_published_values(h: &HybridAnalysis, seed: Core, p: Name, w: Path, v: Value)
    requires
        h.derived_from(seed),
    ensures
        answers(h).pub_points.contains((p, w, v)) <==> {
            &&& answers(h).points.contains((p, w, v))
            &&& v is Alloc || v is Const
            &&& answers(h).pub_root.contains((p, w.root))
        },
{
}

/// What a callsite makes of the callee's roots: a formal is the argument, the return
/// value the variable the result is bound to, and a blocked placeholder of a callee is
/// the caller's own, one callsite further out. No other root has a place.
pub proof fn law_callsites_rename_roots(
    h: &HybridAnalysis,
    seed: Core,
    s: Name,
    c: Name,
    x: Name,
    id: Instance,
    out: Instance,
    i: ArgIdx,
    j: ArgIdx,
    from: Root,
    to: Root,
)
    requires
        h.derived_from(seed),
    ensures
        answers(h).root_map.contains((s, Root::Param(c, i), Root::Var(x))) <==> answers(
            h,
        ).eff_direct.contains((s, c)) && h.program@.actual_arg.contains((s, i, x)),
        answers(h).root_map.contains((s, Root::Ret(c), Root::Var(x))) <==> answers(
            h,
        ).eff_direct.contains((s, c)) && h.program@.bind_ret.contains((s, x)),
        answers(h).root_map.contains((s, Root::Res(id), Root::Res(out))) <==> {
            &&& exists|q: Name| #[trigger]
                answers(h).eff_direct.contains((s, q)) && answers(h).blocked.contains((q, id))
            &&& id.chain.len() < h.k_limit
            &&& out.stmt == id.stmt
            &&& out.chain == id.chain.push(s)
        },
        answers(h).root_map.contains((s, Root::Slot(id, i), Root::Slot(out, j))) <==> {
            &&& answers(h).root_map.contains((s, Root::Res(id), Root::Res(out)))
            &&& answers(h).crit_operand.contains((id, i))
            &&& i == j
        },
        answers(h).root_map.contains((s, from, to)) ==> {
            ||| from is Param && to is Var
            ||| from is Ret && to is Var
            ||| from is Slot && to is Slot
            ||| from is Res && to is Res
        },
{
    let (w, m) = (h.setting(), h.said());
    law_kinds_of_instances(h, seed, id, i, c);
    if out.chain == id.chain.push(s) && out.stmt == id.stmt {
        assert(out == id.push(s));
    }
    if w.moves(m, s, id) {
        let q = choose|q: Name| #[trigger] w.e.eff_direct(s, q) && w.blocked(m, q, id);
        assert(answers(h).eff_direct.contains((s, q)) && answers(h).blocked.contains((q, id)));
        assert(answers(h).pending.contains((q, id)));
    }
    if exists|q: Name| #[trigger]
        answers(h).eff_direct.contains((s, q)) && answers(h).blocked.contains((q, id)) {
        let q = choose|q: Name| #[trigger]
            answers(h).eff_direct.contains((s, q)) && answers(h).blocked.contains((q, id));
        assert(w.e.eff_direct(s, q) && w.blocked(m, q, id));
    }
}

/// An instance is blocked where a path that a caller can still change reaches a slot that
/// decides it; it goes to the top where it is blocked and stuck; and it is adequate where
/// it is pending and not blocked.
pub proof fn law_blocked_instances(h: &HybridAnalysis, seed: Core, p: Name, id: Instance)
    requires
        h.derived_from(seed),
    ensures
        answers(h).blocked.contains((p, id)) <==> {
            &&& answers(h).pending.contains((p, id))
            &&& exists|i: ArgIdx, w: Path|
                {
                    &&& #[trigger] answers(h).points.contains(
                        (p, bare(Root::Slot(id, i)), Value::Path(w)),
                    )
                    &&& answers(h).decisive_slot.contains((id, i))
                    &&& answers(h).free_root.contains((p, w.root))
                }
        },
        answers(h).top.contains((p, id)) <==> answers(h).blocked.contains((p, id)) && answers(
            h,
        ).stuck.contains((p, id)),
        answers(h).adequate.contains((p, id)) <==> answers(h).pending.contains((p, id))
            && !answers(h).blocked.contains((p, id)),
{
    let (w, m) = (h.setting(), h.said());
    assert(answers(h).blocked.contains((p, id)) <==> w.blocked(m, p, id));
    if w.blocked(m, p, id) {
        let (i, x) = choose|i: ArgIdx, x: Path| #[trigger]
            m.points.contains((p, Path::slot(id, i), Value::Path(x))) && w.e.decisive(id.stmt, i)
                && w.free_root(m, p, x.root);
        assert(answers(h).points.contains((p, bare(Root::Slot(id, i)), Value::Path(x))));
        assert(answers(h).pending.contains((p, id)));
        lemma_held(m, id);
        assert(held_anywhere(m).contains((id,)));
        assert(answers(h).decisive_slot.contains((id, i)));
        assert(answers(h).free_root.contains((p, x.root)));
    }
    if exists|i: ArgIdx, x: Path|
        {
            &&& #[trigger] answers(h).points.contains(
                (p, bare(Root::Slot(id, i)), Value::Path(x)),
            )
            &&& answers(h).decisive_slot.contains((id, i))
            &&& answers(h).free_root.contains((p, x.root))
        } {
        let (i, x) = choose|i: ArgIdx, x: Path|
            {
                &&& #[trigger] answers(h).points.contains(
                    (p, bare(Root::Slot(id, i)), Value::Path(x)),
                )
                &&& answers(h).decisive_slot.contains((id, i))
                &&& answers(h).free_root.contains((p, x.root))
            };
        assert(m.points.contains((p, Path::slot(id, i), Value::Path(x))));
        assert(w.e.decisive(id.stmt, i) && w.free_root(m, p, x.root));
    }
}

/// A pending call that will not move on reaches the implementation that each allocation
/// at its receiver selects; at the top it reaches every target of its signature. It
/// reaches nothing else.
pub proof fn law_calls_resolve(h: &HybridAnalysis, seed: Core, p: Name, id: Instance, c: Name)
    requires
        h.derived_from(seed),
    ensures
        answers(h).resolve.contains((p, id, c)) <==> {
            ||| {
                &&& answers(h).pending.contains((p, id))
                &&& !answers(h).will_propagate.contains((p, id))
                &&& exists|l: Name, t: Name, g: Name|
                    {
                        &&& #[trigger] answers(h).points.contains(
                            (p, bare(Root::Slot(id, 0)), Value::Alloc(l)),
                        )
                        &&& #[trigger] h.program@.alloc_type.contains((l, t))
                        &&& answers(h).crit_sig.contains((id, g))
                        &&& #[trigger] h.program@.lookup.contains((t, g, c))
                    }
            }
            ||| answers(h).top.contains((p, id)) && exists|g: Name| #[trigger]
                answers(h).crit_sig.contains((id, g)) && answers(h).sig_target.contains((g, c))
        },
{
    let (w, m) = (h.setting(), h.said());
    let e = h.program@;
    assert(answers(h).resolve.contains((p, id, c)) <==> w.resolve(m, p, id, c));
    assert(answers(h).will_propagate.contains((p, id)) <==> w.will_propagate(p, id));
    assert(answers(h).top.contains((p, id)) <==> w.top(m, p, id));
    assert(w.top(m, p, id) ==> m.pending.contains((p, id)));
    if m.pending.contains((p, id)) {
        assert(answers(h).pending.contains((p, id)));
        lemma_held(m, id);
        assert(held_anywhere(m).contains((id,)));
        assert forall|g: Name| #[trigger] answers(h).crit_sig.contains((id, g))
            <==> e.dispatches(id.stmt, g) by {}
        if w.selects(m, p, id, c) {
            let (l, t, g) = choose|l: Name, t: Name, g: Name|
                {
                    &&& #[trigger] m.points.contains((p, Path::slot(id, 0), Value::Alloc(l)))
                    &&& #[trigger] e.alloc_type.contains((l, t))
                    &&& e.dispatches(id.stmt, g)
                    &&& #[trigger] e.lookup.contains((t, g, c))
                };
            assert(answers(h).points.contains((p, bare(Root::Slot(id, 0)), Value::Alloc(l))));
            assert(answers(h).crit_sig.contains((id, g)));
        }
        if exists|l: Name, t: Name, g: Name|
            {
                &&& #[trigger] answers(h).points.contains(
                    (p, bare(Root::Slot(id, 0)), Value::Alloc(l)),
                )
                &&& #[trigger] e.alloc_type.contains((l, t))
                &&& answers(h).crit_sig.contains((id, g))
                &&& #[trigger] e.lookup.contains((t, g, c))
            } {
            let (l, t, g) = choose|l: Name, t: Name, g: Name|
                {
                    &&& #[trigger] answers(h).points.contains(
                        (p, bare(Root::Slot(id, 0)), Value::Alloc(l)),
                    )
                    &&& #[trigger] e.alloc_type.contains((l, t))
                    &&& answers(h).crit_sig.contains((id, g))
                    &&& #[trigger] e.lookup.contains((t, g, c))
                };
            assert(m.points.contains((p, Path::slot(id, 0), Value::Alloc(l))));
            assert(e.dispatches(id.stmt, g));
            assert(w.selects(m, p, id, c));
        }
        if exists|g: Name| #[trigger] e.dispatches(id.stmt, g) && e.sig_target(g, c) {
            let g = choose|g: Name| #[trigger] e.dispatches(id.stmt, g) && e.sig_target(g, c);
            assert(answers(h).crit_sig.contains((id, g)) && answers(h).sig_target.contains((g, c)));
        }
        if exists|g: Name| #[trigger]
            answers(h).crit_sig.contains((id, g)) && answers(h).sig_target.contains((g, c)) {
            let g = choose|g: Name| #[trigger]
                answers(h).crit_sig.contains((id, g)) && answers(h).sig_target.contains((g, c));
            assert(e.dispatches(id.stmt, g) && e.sig_target(g, c));
        }
    }
}

/// A pending access that will not move on is decided by each constant its index holds;
/// an allocation there leaves the index unknown, and so does the top. No access names a
/// field.
pub proof fn law_accesses_are_decided(
    h: &HybridAnalysis,
    seed: Core,
    p: Name,
    id: Instance,
    c: Name,
    f: Name,
)
    requires
        h.derived_from(seed),
    ensures
        answers(h).index_undecidable.contains((p, id)) <==> {
            &&& answers(h).pending.contains((p, id))
            &&& !answers(h).will_propagate.contains((p, id))
            &&& answers(h).index_crit.contains((id,))
            &&& exists|l: Name| #[trigger]
                answers(h).points.contains((p, bare(Root::Slot(id, 1)), Value::Alloc(l)))
        },
        answers(h).index_acc.contains((p, id, Step::Index(c))) <==> {
            &&& answers(h).pending.contains((p, id))
            &&& !answers(h).will_propagate.contains((p, id))
            &&& answers(h).index_crit.contains((id,))
            &&& answers(h).points.contains((p, bare(Root::Slot(id, 1)), Value::Const(c)))
        },
        answers(h).index_acc.contains((p, id, Step::Unknown)) <==> {
            ||| answers(h).index_undecidable.contains((p, id))
            ||| answers(h).top.contains((p, id)) && answers(h).index_crit.contains((id,))
        },
        !answers(h).index_acc.contains((p, id, Step::Field(f))),
{
    let (w, m) = (h.setting(), h.said());
    law_kinds_of_instances(h, seed, id, 1, c);
    assert(answers(h).index_undecidable.contains((p, id)) <==> w.index_undecidable(m, p, id));
    assert(answers(h).will_propagate.contains((p, id)) <==> w.will_propagate(p, id));
    assert(answers(h).top.contains((p, id)) <==> w.top(m, p, id));
    assert(w.top(m, p, id) ==> m.pending.contains((p, id)));
    assert forall|a: Step| #[trigger] answers(h).index_acc.contains((p, id, a)) <==> w.index_acc(
        m,
        p,
        id,
        a,
    ) by {}
    if m.pending.contains((p, id)) {
        assert(answers(h).pending.contains((p, id)));
    }
    assert(bare(Root::Slot(id, 1)) == Path::slot(id, 1));
    if exists|l: Name| m.points.contains((p, Path::slot(id, 1), Value::Alloc(l))) {
        let l = choose|l: Name| m.points.contains((p, Path::slot(id, 1), Value::Alloc(l)));
        assert(answers(h).points.contains((p, bare(Root::Slot(id, 1)), Value::Alloc(l))));
    }
}

/// A placeholder is settled where it is at the top, and where something decides it and
/// nothing blocks it.
pub proof fn law_settled_placeholders(h: &HybridAnalysis, seed: Core, p: Name, id: Instance)
    requires
        h.derived_from(seed),
    ensures
        answers(h).settled.contains((p, id)) <==> {
            ||| answers(h).top.contains((p, id))
            ||| !answers(h).blocked.contains((p, id)) && exists|c: Name|
                answers(h).resolve.contains((p, id, c))
            ||| !answers(h).blocked.contains((p, id)) && exists|a: Step|
                answers(h).index_acc.contains((p, id, a))
        },
{
    let (w, m) = (h.setting(), h.said());
    assert forall|c: Name| #[trigger] answers(h).resolve.contains((p, id, c)) <==> w.resolve(
        m,
        p,
        id,
        c,
    ) by {}
    assert forall|a: Step| #[trigger] answers(h).index_acc.contains((p, id, a)) <==> w.index_acc(
        m,
        p,
        id,
        a,
    ) by {}
    if exists|c: Name| w.resolve(m, p, id, c) {
        let c = choose|c: Name| w.resolve(m, p, id, c);
        assert(answers(h).resolve.contains((p, id, c)));
    }
    if exists|a: Step| w.index_acc(m, p, id, a) {
        let a = choose|a: Step| w.index_acc(m, p, id, a);
        assert(answers(h).index_acc.contains((p, id, a)));
    }
}

/// A path occurs where a constraint or a points-to fact of the procedure has it, and is
/// listed under its own root.
pub proof fn law_paths_in_use(h: &HybridAnalysis, seed: Core, p: Name, root: Root, w: Path)
    requires
        h.derived_from(seed),
    ensures
        answers(h).path_used.contains((p, root, w)) <==> root == w.root && {
            ||| exists|b: Path| answers(h).edge.contains((p, w, b))
            ||| exists|a: Path| answers(h).edge.contains((p, a, w))
            ||| exists|v: Value| answers(h).points.contains((p, w, v))
        },
{
    let (m, r) = (h.said(), answers(h));
    assert(r.edge == m.edge && r.points == m.points);
    assert(r.path_used.contains((p, root, w)) <==> m.path_used(p, w) && root == w.root);
}

// ---------------------------------------------------------------------------
// What the syntax settles
// ---------------------------------------------------------------------------

/// The tuples of a stratum that some rule derives from it.
spec fn ruled(e: ir::Edb, k: nat, a: Syn) -> Syn {
    Syn {
        carries: a.carries.filter(
            |x: (Name, Name, ArgIdx)|
                Syn::by_formal(e, x.0, x.1, x.2) || a.by_move(e, x.0, x.1, x.2),
        ),
        slots: a.slots.filter(
            |x: (Name, Instance, ArgIdx)|
                a.by_operand(e, x.0, x.1, x.2) || a.by_argument(e, k, x.0, x.1, x.2),
        ),
    }
}

proof fn lemma_ruled_carries(e: ir::Edb, k: nat, a: Syn, b: Syn, p: Name, v: Name, i: ArgIdx)
    requires
        a.closed_under(e, k),
        b == ruled(e, k, a),
        Syn::by_formal(e, p, v, i) || b.by_move(e, p, v, i),
    ensures
        b.carries.contains((p, v, i)),
{
    if b.by_move(e, p, v, i) {
        let (s, from) = choose|s: Name, from: Name| #[trigger]
            e.mov.contains((s, v, from)) && e.stands_in(s, p) && b.carries.contains((p, from, i));
        assert(a.carries.contains((p, from, i)));
        assert(a.by_move(e, p, v, i));
    }
    let x = a.by_move(e, p, v, i);
    assert(a.carries.contains((p, v, i)));
}

proof fn lemma_ruled_slots(e: ir::Edb, k: nat, a: Syn, b: Syn, p: Name, id: Instance, i: ArgIdx)
    requires
        a.closed_under(e, k),
        b == ruled(e, k, a),
        b.by_operand(e, p, id, i) || b.by_argument(e, k, p, id, i),
    ensures
        b.slots.contains((p, id, i)),
{
    if b.by_operand(e, p, id, i) {
        let v = choose|v: Name| #[trigger]
            e.decisive_var(id.stmt, v) && b.carries.contains((p, v, i));
        assert(a.carries.contains((p, v, i)));
        assert(a.by_operand(e, p, id, i));
    } else {
        let (c, inner, j, s, x) = choose|c: Name, inner: Instance, j: ArgIdx, s: Name, x: Name|
            {
                &&& #[trigger] b.slots.contains((c, inner, j))
                &&& e.eff_direct(s, c)
                &&& e.stands_in(s, p)
                &&& #[trigger] e.actual_arg.contains((s, j, x))
                &&& b.carries.contains((p, x, i))
                &&& inner.depth() < k
                &&& id == inner.push(s)
            };
        assert(a.slots.contains((c, inner, j)) && e.actual_arg.contains((s, j, x)));
        assert(a.carries.contains((p, x, i)));
        assert(a.by_argument(e, k, p, id, i));
    }
    let y = a.by_operand(e, p, id, i);
    assert(a.slots.contains((p, id, i)));
}

/// Everything in the least syntactic stratum has a rule.
proof fn lemma_syntax_supported(e: ir::Edb, k: nat, a: Syn)
    requires
        a.least(e, k),
    ensures
        forall|p: Name, v: Name, i: ArgIdx| #[trigger]
            a.carries.contains((p, v, i)) ==> Syn::by_formal(e, p, v, i) || a.by_move(e, p, v, i),
        forall|p: Name, id: Instance, i: ArgIdx| #[trigger]
            a.slots.contains((p, id, i)) ==> a.by_operand(e, p, id, i) || a.by_argument(
                e,
                k,
                p,
                id,
                i,
            ),
{
    let b = ruled(e, k, a);
    assert forall|p: Name, v: Name, i: ArgIdx| Syn::by_formal(e, p, v, i) implies #[trigger]
        b.carries.contains((p, v, i)) by {
        lemma_ruled_carries(e, k, a, b, p, v, i);
    }
    assert forall|p: Name, v: Name, i: ArgIdx| #[trigger]
        b.by_move(e, p, v, i) implies b.carries.contains((p, v, i)) by {
        lemma_ruled_carries(e, k, a, b, p, v, i);
    }
    assert forall|p: Name, id: Instance, i: ArgIdx| #[trigger]
        b.by_operand(e, p, id, i) implies b.slots.contains((p, id, i)) by {
        lemma_ruled_slots(e, k, a, b, p, id, i);
    }
    assert forall|p: Name, id: Instance, i: ArgIdx| #[trigger]
        b.by_argument(e, k, p, id, i) implies b.slots.contains((p, id, i)) by {
        lemma_ruled_slots(e, k, a, b, p, id, i);
    }
    assert(b.closed_under(e, k));
    assert(a.le(b));
    assert forall|p: Name, v: Name, i: ArgIdx| #[trigger]
        a.carries.contains((p, v, i)) implies Syn::by_formal(e, p, v, i) || a.by_move(
        e,
        p,
        v,
        i,
    ) by {
        assert(b.carries.contains((p, v, i)));
    }
    assert forall|p: Name, id: Instance, i: ArgIdx| #[trigger]
        a.slots.contains((p, id, i)) implies a.by_operand(e, p, id, i) || a.by_argument(
        e,
        k,
        p,
        id,
        i,
    ) by {
        assert(b.slots.contains((p, id, i)));
    }
}

/// A local definitely holds a formal's value where it is the formal, and where a move of
/// the procedure gives it one that does.
pub proof fn law_locals_carry_formals(h: &HybridAnalysis, seed: Core, p: Name, v: Name, i: ArgIdx)
    requires
        h.derived_from(seed),
    ensures
        answers(h).carries.contains((p, v, i)) <==> {
            ||| h.program@.formal.contains((p, i, v))
            ||| exists|s: Name, n: usize, from: Name|
                {
                    &&& #[trigger] h.program@.in_proc.contains((s, p, n))
                    &&& #[trigger] h.program@.mov.contains((s, v, from))
                    &&& answers(h).carries.contains((p, from, i))
                }
        },
{
    let (w, r) = (h.setting(), answers(h));
    let (e, a) = (h.program@, w.syn);
    assert(r.carries == a.carries);
    lemma_syntax_supported(e, w.k, a);
    if r.carries.contains((p, v, i)) && !e.formal.contains((p, i, v)) {
        assert(a.by_move(e, p, v, i));
        let (s, from) = choose|s: Name, from: Name| #[trigger]
            e.mov.contains((s, v, from)) && e.stands_in(s, p) && a.carries.contains((p, from, i));
        let n = choose|n: usize| e.in_proc.contains((s, p, n));
        assert(e.in_proc.contains((s, p, n)) && e.mov.contains((s, v, from)));
        assert(r.carries.contains((p, from, i)));
    }
    if exists|s: Name, n: usize, from: Name|
        {
            &&& #[trigger] e.in_proc.contains((s, p, n))
            &&& #[trigger] e.mov.contains((s, v, from))
            &&& r.carries.contains((p, from, i))
        } {
        let (s, n, from) = choose|s: Name, n: usize, from: Name|
            {
                &&& #[trigger] e.in_proc.contains((s, p, n))
                &&& #[trigger] e.mov.contains((s, v, from))
                &&& r.carries.contains((p, from, i))
            };
        assert(e.stands_in(s, p));
        assert(a.by_move(e, p, v, i));
    }
    if e.formal.contains((p, i, v)) {
        assert(Syn::by_formal(e, p, v, i));
        let x = a.by_move(e, p, v, i);
    }
}

/// The deciding slot of an instance is fed from a formal where the instance originates
/// and its deciding operand carries the formal, and where a callsite passes what carries
/// it to the callee's formal that feeds it there.
pub proof fn law_slots_fed_from_formals(
    h: &HybridAnalysis,
    seed: Core,
    p: Name,
    id: Instance,
    i: ArgIdx,
)
    requires
        h.derived_from(seed),
    ensures
        answers(h).slot_from_formal.contains((p, id, i)) <==> {
            ||| exists|v: Name|
                {
                    &&& answers(h).crit_origin.contains((p, id.stmt, id))
                    &&& #[trigger] answers(h).decisive_var.contains((id.stmt, v))
                    &&& answers(h).carries.contains((p, v, i))
                }
            ||| exists|c: Name, inner: Instance, j: ArgIdx, s: Name, n: usize, a: Name|
                {
                    &&& #[trigger] answers(h).slot_from_formal.contains((c, inner, j))
                    &&& answers(h).eff_direct.contains((s, c))
                    &&& #[trigger] h.program@.in_proc.contains((s, p, n))
                    &&& #[trigger] h.program@.actual_arg.contains((s, j, a))
                    &&& answers(h).carries.contains((p, a, i))
                    &&& inner.chain.len() < h.k_limit
                    &&& id.stmt == inner.stmt
                    &&& id.chain == inner.chain.push(s)
                }
        },
{
    let (w, r) = (h.setting(), answers(h));
    let (e, a, k) = (h.program@, w.syn, w.k);
    assert(r.carries == a.carries && r.slot_from_formal == a.slots);
    assert(r.crit_origin.contains((p, id.stmt, id)) <==> e.crit_origin(p, id.stmt, id));
    lemma_syntax_supported(e, k, a);
    if a.by_operand(e, p, id, i) {
        let v = choose|v: Name| #[trigger]
            e.decisive_var(id.stmt, v) && a.carries.contains((p, v, i));
        assert(r.decisive_var.contains((id.stmt, v)) && r.carries.contains((p, v, i)));
    }
    if a.by_argument(e, k, p, id, i) {
        let (c, inner, j, s, x) = choose|c: Name, inner: Instance, j: ArgIdx, s: Name, x: Name|
            {
                &&& #[trigger] a.slots.contains((c, inner, j))
                &&& e.eff_direct(s, c)
                &&& e.stands_in(s, p)
                &&& #[trigger] e.actual_arg.contains((s, j, x))
                &&& a.carries.contains((p, x, i))
                &&& inner.depth() < k
                &&& id == inner.push(s)
            };
        let n = choose|n: usize| e.in_proc.contains((s, p, n));
        assert(r.slot_from_formal.contains((c, inner, j)) && e.in_proc.contains((s, p, n))
            && e.actual_arg.contains((s, j, x)));
        assert(r.eff_direct.contains((s, c)));
    }
    if exists|v: Name|
        {
            &&& r.crit_origin.contains((p, id.stmt, id))
            &&& #[trigger] r.decisive_var.contains((id.stmt, v))
            &&& r.carries.contains((p, v, i))
        } {
        let v = choose|v: Name|
            {
                &&& r.crit_origin.contains((p, id.stmt, id))
                &&& #[trigger] r.decisive_var.contains((id.stmt, v))
                &&& r.carries.contains((p, v, i))
            };
        assert(e.decisive_var(id.stmt, v) && a.carries.contains((p, v, i)));
        assert(a.by_operand(e, p, id, i));
    }
    if exists|c: Name, inner: Instance, j: ArgIdx, s: Name, n: usize, x: Name|
        {
            &&& #[trigger] r.slot_from_formal.contains((c, inner, j))
            &&& r.eff_direct.contains((s, c))
            &&& #[trigger] e.in_proc.contains((s, p, n))
            &&& #[trigger] e.actual_arg.contains((s, j, x))
            &&& r.carries.contains((p, x, i))
            &&& inner.chain.len() < h.k_limit
            &&& id.stmt == inner.stmt
            &&& id.chain == inner.chain.push(s)
        } {
        let (c, inner, j, s, n, x) = choose|
            c: Name,
            inner: Instance,
            j: ArgIdx,
            s: Name,
            n: usize,
            x: Name,
        |
            {
                &&& #[trigger] r.slot_from_formal.contains((c, inner, j))
                &&& r.eff_direct.contains((s, c))
                &&& #[trigger] e.in_proc.contains((s, p, n))
                &&& #[trigger] e.actual_arg.contains((s, j, x))
                &&& r.carries.contains((p, x, i))
                &&& inner.chain.len() < h.k_limit
                &&& id.stmt == inner.stmt
                &&& id.chain == inner.chain.push(s)
            };
        assert(id == inner.push(s));
        assert(e.stands_in(s, p));
        assert(a.slots.contains((c, inner, j)) && e.eff_direct(s, c) && e.actual_arg.contains(
            (s, j, x),
        ));
        assert(a.by_argument(e, k, p, id, i));
        let y = a.by_operand(e, p, id, i);
    }
}

// ---------------------------------------------------------------------------
// The fixpoint: what is there
// ---------------------------------------------------------------------------

/// The statements of a procedure, one by one: a move, a field or a constant index makes
/// its target contain its source, an allocation and a constant are held by the variable
/// they are given to.
pub proof fn law_statements_take_effect(
    h: &HybridAnalysis,
    seed: Core,
    p: Name,
    s: Name,
    n: usize,
    x: Name,
    y: Name,
    z: Name,
)
    requires
        h.derived_from(seed),
        h.program@.in_proc.contains((s, p, n)),
    ensures
        h.program@.mov.contains((s, x, y)) ==> answers(h).edge.contains(
            (p, bare(Root::Var(x)), bare(Root::Var(y))),
        ),
        h.program@.load_field.contains((s, x, y, z)) ==> answers(h).edge.contains(
            (p, bare(Root::Var(x)), off(Root::Var(y), Step::Field(z))),
        ),
        h.program@.store_field.contains((s, x, y, z)) ==> answers(h).edge.contains(
            (p, off(Root::Var(x), Step::Field(y)), bare(Root::Var(z))),
        ),
        h.program@.load_index_const.contains((s, x, y, z)) ==> answers(h).edge.contains(
            (p, bare(Root::Var(x)), off(Root::Var(y), Step::Index(z))),
        ),
        h.program@.store_index_const.contains((s, x, y, z)) ==> answers(h).edge.contains(
            (p, off(Root::Var(x), Step::Index(y)), bare(Root::Var(z))),
        ),
        h.program@.alloc.contains((s, x, y)) ==> answers(h).points.contains(
            (p, bare(Root::Var(x)), Value::Alloc(y)),
        ),
        h.program@.const_assign.contains((s, x, y)) ==> answers(h).points.contains(
            (p, bare(Root::Var(x)), Value::Const(y)),
        ),
{
    let (w, m, e) = (h.setting(), h.said(), h.program@);
    assert(e.stands_in(s, p));
    assert forall|a: Path, b: Path| #[trigger] e.says(s, a, b) implies m.edge.contains(
        (p, a, b),
    ) by {
        assert(w.edge_by_statement(p, a, b));
        assert(w.edge_from(m, p, a, b));
    }
    assert forall|a: Path, v: Value| #[trigger] e.holds(s, a, v) implies m.points.contains(
        (p, a, v),
    ) by {
        assert(w.points_by_statement(p, a, v));
        assert(w.points_from(m, p, a, v));
    }
    if e.mov.contains((s, x, y)) {
        assert(e.says(s, bare(Root::Var(x)), bare(Root::Var(y))));
    }
    if e.load_field.contains((s, x, y, z)) {
        let b = off(Root::Var(y), Step::Field(z));
        assert(b == Path::var(y).then_step(Step::Field(z)));
        assert(e.says(s, bare(Root::Var(x)), b));
    }
    if e.store_field.contains((s, x, y, z)) {
        let a = off(Root::Var(x), Step::Field(y));
        assert(a == Path::var(x).then_step(Step::Field(y)));
        assert(e.says(s, a, bare(Root::Var(z))));
    }
    if e.load_index_const.contains((s, x, y, z)) {
        let b = off(Root::Var(y), Step::Index(z));
        assert(b == Path::var(y).then_step(Step::Index(z)));
        assert(e.says(s, bare(Root::Var(x)), b));
    }
    if e.store_index_const.contains((s, x, y, z)) {
        let a = off(Root::Var(x), Step::Index(y));
        assert(a == Path::var(x).then_step(Step::Index(y)));
        assert(e.says(s, a, bare(Root::Var(z))));
    }
    if e.alloc.contains((s, x, y)) {
        assert(e.holds(s, bare(Root::Var(x)), Value::Alloc(y)));
    }
    if e.const_assign.contains((s, x, y)) {
        assert(e.holds(s, bare(Root::Var(x)), Value::Const(y)));
    }
}

/// A formal holds what the caller passes, and the return value what is returned.
pub proof fn law_formals_and_returns(h: &HybridAnalysis, seed: Core, p: Name, i: ArgIdx, v: Name)
    requires
        h.derived_from(seed),
    ensures
        h.program@.formal.contains((p, i, v)) ==> answers(h).edge.contains(
            (p, bare(Root::Var(v)), bare(Root::Param(p, i))),
        ),
        h.program@.ret.contains((p, v)) ==> answers(h).edge.contains(
            (p, bare(Root::Ret(p)), bare(Root::Var(v))),
        ),
{
    let (w, m, e) = (h.setting(), h.said(), h.program@);
    if e.formal.contains((p, i, v)) {
        let (a, b) = (bare(Root::Var(v)), bare(Root::Param(p, i)));
        assert(w.edge_by_formal(p, a, b));
        assert(w.edge_from(m, p, a, b));
    }
    if e.ret.contains((p, v)) {
        let (a, b) = (bare(Root::Ret(p)), bare(Root::Var(v)));
        assert(w.edge_by_return(p, a, b));
        assert(w.edge_from(m, p, a, b));
    }
}

/// A pending instance is wired to its statement where it originates: each operand to its
/// slot, the result to the variable that takes it. It is pending there.
pub proof fn law_placeholders_are_wired(
    h: &HybridAnalysis,
    seed: Core,
    p: Name,
    s: Name,
    id: Instance,
    i: ArgIdx,
    x: Name,
    y: Name,
    z: Name,
)
    requires
        h.derived_from(seed),
        answers(h).crit_origin.contains((p, s, id)),
    ensures
        answers(h).pending.contains((p, id)),
        h.program@.actual_arg.contains((s, i, x)) ==> answers(h).edge.contains(
            (p, bare(Root::Slot(id, i)), bare(Root::Var(x))),
        ),
        h.program@.bind_ret.contains((s, x)) ==> answers(h).edge.contains(
            (p, bare(Root::Var(x)), bare(Root::Res(id))),
        ),
        h.program@.load_index_var.contains((s, x, y, z)) ==> {
            &&& answers(h).edge.contains((p, bare(Root::Slot(id, 0)), bare(Root::Var(y))))
            &&& answers(h).edge.contains((p, bare(Root::Slot(id, 1)), bare(Root::Var(z))))
            &&& answers(h).edge.contains((p, bare(Root::Var(x)), bare(Root::Res(id))))
        },
        h.program@.store_index_var.contains((s, x, y, z)) ==> {
            &&& answers(h).edge.contains((p, bare(Root::Slot(id, 0)), bare(Root::Var(x))))
            &&& answers(h).edge.contains((p, bare(Root::Slot(id, 1)), bare(Root::Var(y))))
            &&& answers(h).edge.contains((p, bare(Root::Slot(id, 2)), bare(Root::Var(z))))
        },
{
    let (w, m, e) = (h.setting(), h.said(), h.program@);
    assert(e.crit_origin(p, s, id));
    assert(id.stmt == s);
    assert(w.pending_from(m, p, id));
    assert(e.stands_in(s, p) && e.critical(s));
    assert forall|a: Path, b: Path| #[trigger] e.wires(s, a, b) implies m.edge.contains(
        (p, a, b),
    ) by {
        assert(e.says(s, a, b));
        assert(w.edge_by_statement(p, a, b));
        assert(w.edge_from(m, p, a, b));
    }
    if e.actual_arg.contains((s, i, x)) {
        assert(e.wires(s, bare(Root::Slot(id, i)), bare(Root::Var(x))));
    }
    if e.bind_ret.contains((s, x)) {
        assert(e.wires(s, bare(Root::Var(x)), bare(Root::Res(id))));
    }
    if e.load_index_var.contains((s, x, y, z)) {
        assert(e.wires(s, bare(Root::Slot(id, 0)), bare(Root::Var(y))));
        assert(e.wires(s, bare(Root::Slot(id, 1)), bare(Root::Var(z))));
        assert(e.wires(s, bare(Root::Var(x)), bare(Root::Res(id))));
    }
    if e.store_index_var.contains((s, x, y, z)) {
        assert(e.wires(s, bare(Root::Slot(id, 0)), bare(Root::Var(x))));
        assert(e.wires(s, bare(Root::Slot(id, 1)), bare(Root::Var(y))));
        assert(e.wires(s, bare(Root::Slot(id, 2)), bare(Root::Var(z))));
    }
}

/// What is contained flows to the container, and a contained path that is no local's is
/// itself a value there. An accessor that follows either side of a constraint in use may
/// follow the other, as far as the vocabulary admits it.
pub proof fn law_constraints_carry_values(
    h: &HybridAnalysis,
    seed: Core,
    p: Name,
    a: Path,
    b: Path,
    v: Value,
    rest: Seq<Step>,
)
    requires
        h.derived_from(seed),
        answers(h).edge.contains((p, a, b)),
    ensures
        answers(h).points.contains((p, b, v)) ==> answers(h).points.contains((p, a, v)),
        !(b.root is Var) ==> answers(h).points.contains((p, a, Value::Path(b))),
        ({
            let (a2, b2) = (
                Path { root: a.root, steps: a.steps + rest },
                Path { root: b.root, steps: b.steps + rest },
            );
            &&& rest.len() > 0 && answers(h).path_used.contains((p, a.root, a2))
                && h.program@.paths.contains(b.steps + rest) ==> answers(h).edge.contains(
                (p, a2, b2),
            )
            &&& rest.len() > 0 && answers(h).path_used.contains((p, b.root, b2))
                && h.program@.paths.contains(a.steps + rest) ==> answers(h).edge.contains(
                (p, a2, b2),
            )
        }),
{
    let (w, m, e) = (h.setting(), h.said(), h.program@);
    assert(m.edge.contains((p, a, b)));
    if m.points.contains((p, b, v)) {
        assert(w.points_by_flow(m, p, a, v));
        assert(w.points_from(m, p, a, v));
    }
    if !(b.root is Var) {
        assert(w.points_by_symbol(m, p, a, Value::Path(b)));
        assert(w.points_from(m, p, a, Value::Path(b)));
    }
    let (a2, b2) = (
        Path { root: a.root, steps: a.steps + rest },
        Path { root: b.root, steps: b.steps + rest },
    );
    assert(a2.steps.skip(a.steps.len() as int) =~= rest);
    assert(b2.steps.skip(b.steps.len() as int) =~= rest);
    assert(a.steps.is_prefix_of(a2.steps)) by {
        assert(a2.steps.take(a.steps.len() as int) =~= a.steps);
    }
    assert(b.steps.is_prefix_of(b2.steps)) by {
        assert(b2.steps.take(b.steps.len() as int) =~= b.steps);
    }
    if rest.len() > 0 && answers(h).path_used.contains((p, a.root, a2)) && e.paths.contains(
        b2.steps,
    ) {
        assert(rules::congruent(a, b, a2, b2));
        assert(w.edge_by_extending_sup(m, p, a2, b2));
        assert(w.edge_from(m, p, a2, b2));
    }
    if rest.len() > 0 && answers(h).path_used.contains((p, b.root, b2)) && e.paths.contains(
        a2.steps,
    ) {
        assert(rules::congruent(b, a, b2, a2));
        assert(w.edge_by_extending_sub(m, p, a2, b2));
        assert(w.edge_from(m, p, a2, b2));
    }
}

/// Where a root of the callee lands when its summary is inlined at a resolved instance.
pub open spec fn lands(c: Name, id: Instance, from: Root, to: Root, k: nat) -> bool {
    match (from, to) {
        (Root::Param(q, i), Root::Slot(at, j)) => q == c && at == id && i == j,
        (Root::Ret(q), Root::Res(at)) => q == c && at == id,
        (Root::Slot(x, i), Root::Slot(y, j)) => i == j && nested(x, id, y, k),
        (Root::Res(x), Root::Res(y)) => nested(x, id, y, k),
        _ => false,
    }
}

/// `y` is `x` renamed into the holder of `id`: the call string of `x`, then the statement
/// of `id`, then its call string, no longer than `k` together.
pub open spec fn nested(x: Instance, id: Instance, y: Instance, k: nat) -> bool {
    y.stmt == x.stmt && y.chain == x.chain + seq![id.stmt] + id.chain && y.chain.len() <= k
}

/// The substitution of a resolved instance puts each root in one place or none.
pub proof fn law_resolved_roots_land(c: Name, id: Instance, from: Root, to: Root, k: nat)
    ensures
        rules::crit_root(c, id, from, k) == Some(to) <==> lands(c, id, from, to, k),
{
    match from {
        Root::Slot(x, i) => {
            assert(x.chain + seq![id.stmt] + id.chain =~= x.nest(id).chain);
        },
        Root::Res(x) => {
            assert(x.chain + seq![id.stmt] + id.chain =~= x.nest(id).chain);
        },
        _ => {},
    }
    match to {
        Root::Slot(y, j) => {
            if from is Slot && y.stmt == from->Slot_0.stmt && y.chain == from->Slot_0.nest(
                id,
            ).chain {
                assert(y == from->Slot_0.nest(id));
            }
        },
        Root::Res(y) => {
            if from is Res && y.stmt == from->Res_0.stmt && y.chain == from->Res_0.nest(id).chain {
                assert(y == from->Res_0.nest(id));
            }
        },
        _ => {},
    }
}

/// A callee's summary at a call whose callee is known: each of its path constraints whose
/// roots have a place holds there, and so does each concrete value at a published root;
/// what follows the root stays.
pub proof fn law_calls_inline_summaries(
    h: &HybridAnalysis,
    seed: Core,
    p: Name,
    s: Name,
    n: usize,
    c: Name,
    a: Path,
    b: Path,
    v: Value,
    to: Root,
    sub: Root,
)
    requires
        h.derived_from(seed),
        h.program@.in_proc.contains((s, p, n)),
        answers(h).eff_direct.contains((s, c)),
        answers(h).root_map.contains((s, a.root, to)),
    ensures
        answers(h).points.contains((c, a, Value::Path(b))) && answers(h).root_map.contains(
            (s, b.root, sub),
        ) ==> answers(h).edge.contains(
            (p, Path { root: to, steps: a.steps }, Path { root: sub, steps: b.steps }),
        ),
        answers(h).points.contains((c, a, v)) && !(v is Path) && answers(h).pub_root.contains(
            (c, a.root),
        ) ==> answers(h).points.contains((p, Path { root: to, steps: a.steps }, v)),
{
    let (w, m, e) = (h.setting(), h.said(), h.program@);
    assert(e.stands_in(s, p) && e.eff_direct(s, c));
    assert(w.root_map(m, s, a.root, to));
    let sup = Path { root: to, steps: a.steps };
    if m.points.contains((c, a, Value::Path(b))) && answers(h).root_map.contains(
        (s, b.root, sub),
    ) {
        let y = Path { root: sub, steps: b.steps };
        assert(w.edge_by_call(m, p, sup, y));
        assert(w.edge_from(m, p, sup, y));
    }
    if m.points.contains((c, a, v)) && !(v is Path) && answers(h).pub_root.contains((c, a.root)) {
        assert(w.pub_points(m, c, a, v));
        assert(w.points_by_call(m, p, sup, v));
        assert(w.points_from(m, p, sup, v));
    }
}

/// A callee's summary at a resolved instance: its path constraints, its concrete values at
/// published roots and its placeholders, each where the instance puts it.
pub proof fn law_resolutions_inline_summaries(
    h: &HybridAnalysis,
    seed: Core,
    p: Name,
    id: Instance,
    c: Name,
    a: Path,
    b: Path,
    v: Value,
    to: Root,
    sub: Root,
    inner: Instance,
    out: Instance,
)
    requires
        h.derived_from(seed),
        answers(h).resolve.contains((p, id, c)),
    ensures
        answers(h).points.contains((c, a, Value::Path(b))) && lands(
            c,
            id,
            a.root,
            to,
            h.k_limit as nat,
        ) && lands(c, id, b.root, sub, h.k_limit as nat) ==> answers(h).edge.contains(
            (p, Path { root: to, steps: a.steps }, Path { root: sub, steps: b.steps }),
        ),
        answers(h).points.contains((c, a, v)) && !(v is Path) && answers(h).pub_root.contains(
            (c, a.root),
        ) && lands(c, id, a.root, to, h.k_limit as nat) ==> answers(h).points.contains(
            (p, Path { root: to, steps: a.steps }, v),
        ),
        answers(h).pending.contains((c, inner)) && nested(inner, id, out, h.k_limit as nat)
            ==> answers(h).pending.contains((p, out)),
{
    let (w, m) = (h.setting(), h.said());
    assert(w.resolve(m, p, id, c));
    law_resolved_roots_land(c, id, a.root, to, w.k);
    law_resolved_roots_land(c, id, b.root, sub, w.k);
    let sup = Path { root: to, steps: a.steps };
    if m.points.contains((c, a, Value::Path(b))) && lands(c, id, a.root, to, w.k) && lands(
        c,
        id,
        b.root,
        sub,
        w.k,
    ) {
        let y = Path { root: sub, steps: b.steps };
        assert(w.edge_by_dispatch(m, p, sup, y));
        assert(w.edge_from(m, p, sup, y));
    }
    if m.points.contains((c, a, v)) && !(v is Path) && answers(h).pub_root.contains((c, a.root))
        && lands(c, id, a.root, to, w.k) {
        assert(w.pub_points(m, c, a, v));
        assert(w.points_by_dispatch(m, p, sup, v));
        assert(w.points_from(m, p, sup, v));
    }
    if m.pending.contains((c, inner)) && nested(inner, id, out, w.k) {
        assert(out.chain =~= inner.nest(id).chain);
        assert(out == inner.nest(id));
        assert(w.pending_by_dispatch(m, p, out));
        assert(w.pending_from(m, p, out));
    }
}

/// A blocked placeholder moves into the callers of its holder, one callsite further out,
/// while its call string is shorter than the limit.
pub proof fn law_blocked_placeholders_move(
    h: &HybridAnalysis,
    seed: Core,
    p: Name,
    s: Name,
    n: usize,
    c: Name,
    id: Instance,
    out: Instance,
)
    requires
        h.derived_from(seed),
        h.program@.in_proc.contains((s, p, n)),
        answers(h).eff_direct.contains((s, c)),
        answers(h).blocked.contains((c, id)),
        id.chain.len() < h.k_limit,
        out.stmt == id.stmt,
        out.chain == id.chain.push(s),
    ensures
        answers(h).pending.contains((p, out)),
{
    let (w, m, e) = (h.setting(), h.said(), h.program@);
    assert(e.stands_in(s, p) && e.eff_direct(s, c) && w.blocked(m, c, id));
    assert(out == id.push(s));
    assert(w.pending_by_call(m, p, out));
    assert(w.pending_from(m, p, out));
}

/// A decided access reads and writes whatever its base operand stands for, extended by
/// the decided accessor, as far as the vocabulary admits it.
pub proof fn law_decided_accesses_take_effect(
    h: &HybridAnalysis,
    seed: Core,
    p: Name,
    id: Instance,
    acc: Step,
    w: Path,
)
    requires
        h.derived_from(seed),
        answers(h).index_acc.contains((p, id, acc)),
        answers(h).edge.contains((p, bare(Root::Slot(id, 0)), w)) || answers(h).points.contains(
            (p, bare(Root::Slot(id, 0)), Value::Path(w)),
        ),
        h.program@.paths.contains(w.steps.push(acc)),
    ensures
        answers(h).load_crit.contains((id,)) ==> answers(h).edge.contains(
            (p, bare(Root::Res(id)), Path { root: w.root, steps: w.steps.push(acc) }),
        ),
        answers(h).store_crit.contains((id,)) ==> answers(h).edge.contains(
            (p, Path { root: w.root, steps: w.steps.push(acc) }, bare(Root::Slot(id, 2))),
        ),
{
    let (g, m) = (h.setting(), h.said());
    let ext = Path { root: w.root, steps: w.steps.push(acc) };
    assert(ext == w.then_step(acc));
    assert(g.index_acc(m, p, id, acc));
    assert(g.base_of(m, p, id, w));
    if answers(h).load_crit.contains((id,)) {
        assert(g.edge_by_load(m, p, bare(Root::Res(id)), ext));
        assert(g.edge_from(m, p, bare(Root::Res(id)), ext));
    }
    if answers(h).store_crit.contains((id,)) {
        assert(g.edge_by_store(m, p, ext, bare(Root::Slot(id, 2))));
        assert(g.edge_from(m, p, ext, bare(Root::Slot(id, 2))));
    }
}

/// A procedure that holds a concrete value is one of the program's.
proof fn lemma_values_are_in_procedures(w: Setting, m: Core, p: Name, a: Path, v: Value)
    requires
        w.least(Core::nothing(), m),
        m.points.contains((p, a, v)),
        !(v is Path),
    ensures
        w.e.known_proc(p),
{
    let edge = |p: Name, a: Path, b: Path| true;
    let points = |p: Name, a: Path, v: Value| !(v is Path) ==> w.e.known_proc(p);
    let pending = |p: Name, id: Instance| w.e.known_proc(p);
    let n = laws::narrowed(m, edge, points, pending);
    assert forall|p: Name, id: Instance| #[trigger] w.pending_from(n, p, id) implies pending(
        p,
        id,
    ) by {
        if w.e.crit_origin(p, id.stmt, id) {
            assert(w.e.stands_in(id.stmt, p));
        } else if w.pending_by_call(n, p, id) {
            let (s, c, inner) = choose|s: Name, c: Name, inner: Instance|
                {
                    &&& #[trigger] w.e.eff_direct(s, c)
                    &&& w.e.stands_in(s, p)
                    &&& #[trigger] w.blocked(n, c, inner)
                    &&& inner.depth() < w.k
                    &&& id == inner.push(s)
                };
            assert(w.e.stands_in(s, p));
        } else {
            let (outer, c, inner) = choose|outer: Instance, c: Name, inner: Instance|
                {
                    &&& #[trigger] w.resolve(n, p, outer, c)
                    &&& #[trigger] n.pending.contains((c, inner))
                    &&& inner.nest(outer).depth() <= w.k
                    &&& id == inner.nest(outer)
                };
            assert(n.pending.contains((p, outer)));
        }
    }
    assert forall|p: Name, a: Path, v: Value| #[trigger]
        w.points_from(n, p, a, v) implies points(p, a, v) by {
        if !(v is Path) {
            if w.points_by_statement(p, a, v) {
                let s = choose|s: Name| #[trigger] w.e.stands_in(s, p) && w.e.holds(s, a, v);
                assert(w.e.stands_in(s, p));
            } else if w.points_by_flow(n, p, a, v) {
                let b = choose|b: Path| #[trigger]
                    n.edge.contains((p, a, b)) && n.points.contains((p, b, v));
                assert(n.points.contains((p, b, v)));
            } else if w.points_by_call(n, p, a, v) {
                let (s, c, b) = choose|s: Name, c: Name, b: Path|
                    {
                        &&& #[trigger] w.e.eff_direct(s, c)
                        &&& w.e.stands_in(s, p)
                        &&& #[trigger] w.pub_points(n, c, b, v)
                        &&& w.root_map(n, s, b.root, a.root)
                        &&& a.steps == b.steps
                    };
                assert(w.e.stands_in(s, p));
            } else {
                let (id, c, b) = choose|id: Instance, c: Name, b: Path|
                    {
                        &&& #[trigger] w.resolve(n, p, id, c)
                        &&& #[trigger] w.pub_points(n, c, b, v)
                        &&& rules::crit_root(c, id, b.root, w.k) == Some(a.root)
                        &&& a.steps == b.steps
                    };
                assert(n.pending.contains((p, id)));
            }
        }
    }
    laws::law_rule_induction(w, m, edge, points, pending);
}

/// What a procedure holds reaches its callers, allocations and constants alike: at the
/// return value it is in the points-to set of the variable that the result is bound to,
/// at a formal in that of the argument, and at a placeholder that moves on in that of the
/// caller's placeholder; with the same accessors behind it. This holds wherever the callee
/// is one of the program's procedures, as it always is in a fresh run.
pub proof fn law_concrete_values_reach_callers(
    h: &HybridAnalysis,
    seed: Core,
    c: Name,
    p: Name,
    s: Name,
    n: usize,
    x: Name,
    i: ArgIdx,
    id: Instance,
    steps: Seq<Step>,
    v: Value,
)
    requires
        h.derived_from(seed),
        v is Alloc || v is Const,
        h.program@.in_proc.contains((s, p, n)),
        h.program@.direct_call.contains((s, c)) || answers(h).mono_target.contains((s, c)),
        seed == Core::nothing() || h.program@.procedure.contains(c) || exists|t: Name, l: usize|
            h.program@.in_proc.contains((t, c, l)),
    ensures
        answers(h).points.contains((c, Path { root: Root::Ret(c), steps }, v))
            && h.program@.bind_ret.contains((s, x)) ==> answers(h).points.contains(
            (p, Path { root: Root::Var(x), steps }, v),
        ),
        answers(h).points.contains((c, Path { root: Root::Param(c, i), steps }, v)) && (exists|
            y: Name,
        | h.program@.formal.contains((c, i, y))) && h.program@.actual_arg.contains((s, i, x))
            ==> answers(h).points.contains((p, Path { root: Root::Var(x), steps }, v)),
        answers(h).blocked.contains((c, id)) && id.chain.len() < h.k_limit ==> ({
            let out = Instance { stmt: id.stmt, chain: id.chain.push(s) };
            &&& answers(h).points.contains((c, Path { root: Root::Res(id), steps }, v)) ==> answers(
                h,
            ).points.contains((p, Path { root: Root::Res(out), steps }, v))
            &&& answers(h).points.contains((c, Path { root: Root::Slot(id, i), steps }, v))
                && answers(h).crit_operand.contains((id, i)) ==> answers(h).points.contains(
                (p, Path { root: Root::Slot(out, i), steps }, v),
            )
        }),
{
    let (e, r) = (h.program@, answers(h));
    let out = Instance { stmt: id.stmt, chain: id.chain.push(s) };
    law_known_callees(h, seed, s, c);
    law_callsites_rename_roots(h, seed, s, c, x, id, out, i, i, Root::Ret(c), Root::Var(x));
    law_roots(h, seed, c, c, id, i);
    law_blocked_instances(h, seed, c, id);
    if r.points.contains((c, Path { root: Root::Ret(c), steps }, v)) && e.bind_ret.contains(
        (s, x),
    ) {
        let a = Path { root: Root::Ret(c), steps };
        if seed == Core::nothing() {
            lemma_values_are_in_procedures(h.setting(), h.said(), c, a, v);
        } else {
            law_procedures(h, seed, c);
        }
        assert(r.known_proc.contains((c,)));
        law_calls_inline_summaries(h, seed, p, s, n, c, a, a, v, Root::Var(x), Root::Var(x));
    }
    if r.points.contains((c, Path { root: Root::Param(c, i), steps }, v)) && (exists|y: Name|
        e.formal.contains((c, i, y))) && e.actual_arg.contains((s, i, x)) {
        let a = Path { root: Root::Param(c, i), steps };
        law_calls_inline_summaries(h, seed, p, s, n, c, a, a, v, Root::Var(x), Root::Var(x));
    }
    if r.blocked.contains((c, id)) && id.chain.len() < h.k_limit {
        assert(r.eff_direct.contains((s, c)) && r.blocked.contains((c, id)));
        assert(r.root_map.contains((s, Root::Res(id), Root::Res(out))));
        if r.points.contains((c, Path { root: Root::Res(id), steps }, v)) {
            let a = Path { root: Root::Res(id), steps };
            law_calls_inline_summaries(h, seed, p, s, n, c, a, a, v, Root::Res(out), a.root);
        }
        if r.points.contains((c, Path { root: Root::Slot(id, i), steps }, v))
            && r.crit_operand.contains((id, i)) {
            let a = Path { root: Root::Slot(id, i), steps };
            law_calls_inline_summaries(h, seed, p, s, n, c, a, a, v, Root::Slot(out, i), a.root);
        }
    }
}

/// What an implementation holds reaches the call that resolves to it, allocations and
/// constants alike: at its return value it is in the points-to set of the placeholder's
/// result, and at a formal in that of the placeholder's slot.
pub proof fn law_concrete_values_reach_resolved_calls(
    h: &HybridAnalysis,
    seed: Core,
    c: Name,
    p: Name,
    id: Instance,
    i: ArgIdx,
    steps: Seq<Step>,
    v: Value,
)
    requires
        h.derived_from(seed),
        v is Alloc || v is Const,
        answers(h).resolve.contains((p, id, c)),
        seed == Core::nothing() || h.program@.procedure.contains(c) || exists|t: Name, l: usize|
            h.program@.in_proc.contains((t, c, l)),
    ensures
        answers(h).points.contains((c, Path { root: Root::Ret(c), steps }, v)) ==> answers(
            h,
        ).points.contains((p, Path { root: Root::Res(id), steps }, v)),
        answers(h).points.contains((c, Path { root: Root::Param(c, i), steps }, v)) && (exists|
            y: Name,
        | h.program@.formal.contains((c, i, y))) ==> answers(h).points.contains(
            (p, Path { root: Root::Slot(id, i), steps }, v),
        ),
{
    let r = answers(h);
    law_roots(h, seed, c, c, id, i);
    if r.points.contains((c, Path { root: Root::Ret(c), steps }, v)) {
        let a = Path { root: Root::Ret(c), steps };
        if seed == Core::nothing() {
            lemma_values_are_in_procedures(h.setting(), h.said(), c, a, v);
        } else {
            law_procedures(h, seed, c);
        }
        assert(r.known_proc.contains((c,)));
        let to = Root::Res(id);
        law_resolutions_inline_summaries(h, seed, p, id, c, a, a, v, to, to, id, id);
    }
    if r.points.contains((c, Path { root: Root::Param(c, i), steps }, v)) && (exists|y: Name|
        h.program@.formal.contains((c, i, y))) {
        let a = Path { root: Root::Param(c, i), steps };
        let to = Root::Slot(id, i);
        law_resolutions_inline_summaries(h, seed, p, id, c, a, a, v, to, to, id, id);
    }
}

// ---------------------------------------------------------------------------
// The fixpoint: why it is there
// ---------------------------------------------------------------------------

/// The tuples of a core that the seed has or some rule derives from it.
spec fn grounded(w: Setting, seed: Core, m: Core) -> Core {
    Core {
        edge: m.edge.filter(
            |x: (Name, Path, Path)| seed.edge.contains(x) || w.edge_from(m, x.0, x.1, x.2),
        ),
        points: m.points.filter(
            |x: (Name, Path, Value)| seed.points.contains(x) || w.points_from(m, x.0, x.1, x.2),
        ),
        pending: m.pending.filter(
            |x: (Name, Instance)| seed.pending.contains(x) || w.pending_from(m, x.0, x.1),
        ),
    }
}

/// Everything in the least core has a rule, or is in the seed.
proof fn lemma_core_supported(w: Setting, seed: Core, m: Core)
    requires
        w.least(seed, m),
    ensures
        forall|p: Name, a: Path, b: Path| #[trigger]
            m.edge.contains((p, a, b)) ==> seed.edge.contains((p, a, b)) || w.edge_from(m, p, a, b),
        forall|p: Name, a: Path, v: Value| #[trigger]
            m.points.contains((p, a, v)) ==> seed.points.contains((p, a, v)) || w.points_from(
                m,
                p,
                a,
                v,
            ),
        forall|p: Name, id: Instance| #[trigger]
            m.pending.contains((p, id)) ==> seed.pending.contains((p, id)) || w.pending_from(
                m,
                p,
                id,
            ),
{
    let n = grounded(w, seed, m);
    assert(n.le(m));
    rules::lemma_rules_monotone(w, n, m);
    assert forall|p: Name, a: Path, b: Path| #[trigger]
        w.edge_from(n, p, a, b) implies n.edge.contains((p, a, b)) by {
        assert(w.edge_from(m, p, a, b));
    }
    assert forall|p: Name, a: Path, v: Value| #[trigger]
        w.points_from(n, p, a, v) implies n.points.contains((p, a, v)) by {
        assert(w.points_from(m, p, a, v));
    }
    assert forall|p: Name, id: Instance| #[trigger]
        w.pending_from(n, p, id) implies n.pending.contains((p, id)) by {
        assert(w.pending_from(m, p, id));
    }
    assert(w.closed_under(n));
    assert(seed.le(n));
    assert(m.le(n));
    assert forall|p: Name, a: Path, b: Path| #[trigger]
        m.edge.contains((p, a, b)) implies seed.edge.contains((p, a, b)) || w.edge_from(
        m,
        p,
        a,
        b,
    ) by {
        assert(n.edge.contains((p, a, b)));
    }
    assert forall|p: Name, a: Path, v: Value| #[trigger]
        m.points.contains((p, a, v)) implies seed.points.contains((p, a, v)) || w.points_from(
        m,
        p,
        a,
        v,
    ) by {
        assert(n.points.contains((p, a, v)));
    }
    assert forall|p: Name, id: Instance| #[trigger]
        m.pending.contains((p, id)) implies seed.pending.contains((p, id)) || w.pending_from(
        m,
        p,
        id,
    ) by {
        assert(n.pending.contains((p, id)));
    }
}

/// An instance is pending where its statement stands, where a callsite took it over from
/// a callee that it is blocked in, and where a resolved call took it over from the
/// implementation; and nowhere else.
pub proof fn law_why_an_instance_is_pending(h: &HybridAnalysis, seed: Core, p: Name, id: Instance)
    requires
        h.derived_from(seed),
        answers(h).pending.contains((p, id)),
    ensures
        ({
            ||| seed.pending.contains((p, id))
            ||| answers(h).crit_origin.contains((p, id.stmt, id))
            ||| exists|s: Name, n: usize, c: Name, inner: Instance|
                {
                    &&& #[trigger] h.program@.in_proc.contains((s, p, n))
                    &&& answers(h).eff_direct.contains((s, c))
                    &&& #[trigger] answers(h).blocked.contains((c, inner))
                    &&& inner.chain.len() < h.k_limit
                    &&& id.stmt == inner.stmt
                    &&& id.chain == inner.chain.push(s)
                }
            ||| exists|outer: Instance, c: Name, inner: Instance|
                {
                    &&& #[trigger] answers(h).resolve.contains((p, outer, c))
                    &&& #[trigger] answers(h).pending.contains((c, inner))
                    &&& nested(inner, outer, id, h.k_limit as nat)
                }
        }),
{
    let (w, m, e, r) = (h.setting(), h.said(), h.program@, answers(h));
    lemma_core_supported(w, seed, m);
    assert(m.pending.contains((p, id)));
    if w.pending_by_call(m, p, id) {
        let (s, c, inner) = choose|s: Name, c: Name, inner: Instance|
            {
                &&& #[trigger] e.eff_direct(s, c)
                &&& e.stands_in(s, p)
                &&& #[trigger] w.blocked(m, c, inner)
                &&& inner.depth() < w.k
                &&& id == inner.push(s)
            };
        let n = choose|n: usize| e.in_proc.contains((s, p, n));
        assert(e.in_proc.contains((s, p, n)) && r.blocked.contains((c, inner)));
        assert(r.eff_direct.contains((s, c)));
    }
    if w.pending_by_dispatch(m, p, id) {
        let (outer, c, inner) = choose|outer: Instance, c: Name, inner: Instance|
            {
                &&& #[trigger] w.resolve(m, p, outer, c)
                &&& #[trigger] m.pending.contains((c, inner))
                &&& inner.nest(outer).depth() <= w.k
                &&& id == inner.nest(outer)
            };
        assert(inner.chain + seq![outer.stmt] + outer.chain =~= id.chain);
        assert(r.resolve.contains((p, outer, c)) && r.pending.contains((c, inner)));
    }
    assert(e.crit_origin(p, id.stmt, id) ==> r.crit_origin.contains((p, id.stmt, id)));
}

/// A value is in a points-to set because a statement of the procedure puts it there,
/// because what it contains has it, because it is itself the contained path of a symbol,
/// or because a callee or a resolved implementation holds it at the root that lands here;
/// and for no other reason.
pub proof fn law_why_a_value_is_held(h: &HybridAnalysis, seed: Core, p: Name, w: Path, v: Value)
    requires
        h.derived_from(seed),
        answers(h).points.contains((p, w, v)),
    ensures
        ({
            ||| seed.points.contains((p, w, v))
            ||| exists|s: Name, n: usize, x: Name, l: Name|
                {
                    &&& #[trigger] h.program@.in_proc.contains((s, p, n))
                    &&& #[trigger] h.program@.alloc.contains((s, x, l))
                    &&& w == bare(Root::Var(x))
                    &&& v == Value::Alloc(l)
                }
            ||| exists|s: Name, n: usize, x: Name, l: Name|
                {
                    &&& #[trigger] h.program@.in_proc.contains((s, p, n))
                    &&& #[trigger] h.program@.const_assign.contains((s, x, l))
                    &&& w == bare(Root::Var(x))
                    &&& v == Value::Const(l)
                }
            ||| exists|b: Path| #[trigger]
                answers(h).edge.contains((p, w, b)) && answers(h).points.contains((p, b, v))
            ||| v is Path && !(v->Path_0.root is Var) && answers(h).edge.contains((p, w, v->Path_0))
            ||| exists|s: Name, n: usize, c: Name, a: Path|
                {
                    &&& #[trigger] h.program@.in_proc.contains((s, p, n))
                    &&& answers(h).eff_direct.contains((s, c))
                    &&& #[trigger] answers(h).pub_points.contains((c, a, v))
                    &&& answers(h).root_map.contains((s, a.root, w.root))
                    &&& w.steps == a.steps
                }
            ||| exists|id: Instance, c: Name, a: Path|
                {
                    &&& #[trigger] answers(h).resolve.contains((p, id, c))
                    &&& #[trigger] answers(h).pub_points.contains((c, a, v))
                    &&& lands(c, id, a.root, w.root, h.k_limit as nat)
                    &&& w.steps == a.steps
                }
        }),
{
    let (g, m, e, r) = (h.setting(), h.said(), h.program@, answers(h));
    lemma_core_supported(g, seed, m);
    assert(m.points.contains((p, w, v)));
    if g.points_by_statement(p, w, v) {
        let s = choose|s: Name| #[trigger] e.stands_in(s, p) && e.holds(s, w, v);
        let n = choose|n: usize| e.in_proc.contains((s, p, n));
        assert(e.in_proc.contains((s, p, n)));
    }
    if g.points_by_flow(m, p, w, v) {
        let b = choose|b: Path| #[trigger]
            m.edge.contains((p, w, b)) && m.points.contains((p, b, v));
        assert(r.edge.contains((p, w, b)) && r.points.contains((p, b, v)));
    }
    if g.points_by_call(m, p, w, v) {
        let (s, c, a) = choose|s: Name, c: Name, a: Path|
            {
                &&& #[trigger] e.eff_direct(s, c)
                &&& e.stands_in(s, p)
                &&& #[trigger] g.pub_points(m, c, a, v)
                &&& g.root_map(m, s, a.root, w.root)
                &&& w.steps == a.steps
            };
        let n = choose|n: usize| e.in_proc.contains((s, p, n));
        assert(e.in_proc.contains((s, p, n)) && r.pub_points.contains((c, a, v)));
        assert(r.eff_direct.contains((s, c)) && r.root_map.contains((s, a.root, w.root)));
    }
    if g.points_by_dispatch(m, p, w, v) {
        let (id, c, a) = choose|id: Instance, c: Name, a: Path|
            {
                &&& #[trigger] g.resolve(m, p, id, c)
                &&& #[trigger] g.pub_points(m, c, a, v)
                &&& rules::crit_root(c, id, a.root, g.k) == Some(w.root)
                &&& w.steps == a.steps
            };
        law_resolved_roots_land(c, id, a.root, w.root, g.k);
        assert(r.resolve.contains((p, id, c)) && r.pub_points.contains((c, a, v)));
    }
}

/// A constraint that stands by the syntax of the procedure: a statement of it says so, or
/// it ties a formal, a return or a placeholder to its variable.
pub open spec fn spelled_out(h: &HybridAnalysis, p: Name, a: Path, b: Path) -> bool {
    ||| exists|s: Name, n: usize, x: Name, y: Name|
        {
            &&& #[trigger] h.program@.in_proc.contains((s, p, n))
            &&& #[trigger] h.program@.mov.contains((s, x, y))
            &&& a == bare(Root::Var(x)) && b == bare(Root::Var(y))
        }
    ||| exists|s: Name, n: usize, x: Name, y: Name, z: Name|
        {
            &&& #[trigger] h.program@.in_proc.contains((s, p, n))
            &&& #[trigger] h.program@.load_field.contains((s, x, y, z))
            &&& a == bare(Root::Var(x)) && b == off(Root::Var(y), Step::Field(z))
        }
    ||| exists|s: Name, n: usize, x: Name, y: Name, z: Name|
        {
            &&& #[trigger] h.program@.in_proc.contains((s, p, n))
            &&& #[trigger] h.program@.store_field.contains((s, x, y, z))
            &&& a == off(Root::Var(x), Step::Field(y)) && b == bare(Root::Var(z))
        }
    ||| exists|s: Name, n: usize, x: Name, y: Name, z: Name|
        {
            &&& #[trigger] h.program@.in_proc.contains((s, p, n))
            &&& #[trigger] h.program@.load_index_const.contains((s, x, y, z))
            &&& a == bare(Root::Var(x)) && b == off(Root::Var(y), Step::Index(z))
        }
    ||| exists|s: Name, n: usize, x: Name, y: Name, z: Name|
        {
            &&& #[trigger] h.program@.in_proc.contains((s, p, n))
            &&& #[trigger] h.program@.store_index_const.contains((s, x, y, z))
            &&& a == off(Root::Var(x), Step::Index(y)) && b == bare(Root::Var(z))
        }
    ||| exists|i: ArgIdx, x: Name| #[trigger]
        h.program@.formal.contains((p, i, x)) && a == bare(Root::Var(x)) && b == bare(
            Root::Param(p, i),
        )
    ||| exists|x: Name| #[trigger]
        h.program@.ret.contains((p, x)) && a == bare(Root::Ret(p)) && b == bare(Root::Var(x))
    ||| exists|s: Name, id: Instance, i: ArgIdx, x: Name|
        {
            &&& #[trigger] answers(h).crit_origin.contains((p, s, id))
            &&& #[trigger] h.program@.actual_arg.contains((s, i, x))
            &&& a == bare(Root::Slot(id, i)) && b == bare(Root::Var(x))
        }
    ||| exists|s: Name, id: Instance, x: Name|
        {
            &&& #[trigger] answers(h).crit_origin.contains((p, s, id))
            &&& #[trigger] h.program@.bind_ret.contains((s, x))
            &&& a == bare(Root::Var(x)) && b == bare(Root::Res(id))
        }
    ||| exists|s: Name, id: Instance, x: Name, y: Name, z: Name|
        {
            &&& #[trigger] answers(h).crit_origin.contains((p, s, id))
            &&& #[trigger] h.program@.load_index_var.contains((s, x, y, z))
            &&& {
                ||| a == bare(Root::Slot(id, 0)) && b == bare(Root::Var(y))
                ||| a == bare(Root::Slot(id, 1)) && b == bare(Root::Var(z))
                ||| a == bare(Root::Var(x)) && b == bare(Root::Res(id))
            }
        }
    ||| exists|s: Name, id: Instance, x: Name, y: Name, z: Name|
        {
            &&& #[trigger] answers(h).crit_origin.contains((p, s, id))
            &&& #[trigger] h.program@.store_index_var.contains((s, x, y, z))
            &&& {
                ||| a == bare(Root::Slot(id, 0)) && b == bare(Root::Var(x))
                ||| a == bare(Root::Slot(id, 1)) && b == bare(Root::Var(y))
                ||| a == bare(Root::Slot(id, 2)) && b == bare(Root::Var(z))
            }
        }
}

proof fn lemma_spelled_out(h: &HybridAnalysis, seed: Core, p: Name, s: Name, a: Path, b: Path)
    requires
        h.derived_from(seed),
        h.program@.stands_in(s, p),
        h.program@.says(s, a, b),
    ensures
        spelled_out(h, p, a, b),
{
    let e = h.program@;
    let n = choose|n: usize| e.in_proc.contains((s, p, n));
    assert(e.in_proc.contains((s, p, n)));
    if exists|x: Name, y: Name, z: Name| #[trigger]
        e.load_field.contains((s, x, y, z)) && a == Path::var(x) && b == Path::var(y).then_step(
            Step::Field(z),
        ) {
        let (x, y, z) = choose|x: Name, y: Name, z: Name| #[trigger]
            e.load_field.contains((s, x, y, z)) && a == Path::var(x) && b == Path::var(
                y,
            ).then_step(Step::Field(z));
        assert(b == off(Root::Var(y), Step::Field(z)));
    } else if exists|x: Name, y: Name, z: Name| #[trigger]
        e.store_field.contains((s, x, y, z)) && a == Path::var(x).then_step(Step::Field(y)) && b
            == Path::var(z) {
        let (x, y, z) = choose|x: Name, y: Name, z: Name| #[trigger]
            e.store_field.contains((s, x, y, z)) && a == Path::var(x).then_step(Step::Field(y))
                && b == Path::var(z);
        assert(a == off(Root::Var(x), Step::Field(y)));
    } else if exists|x: Name, y: Name, z: Name| #[trigger]
        e.load_index_const.contains((s, x, y, z)) && a == Path::var(x) && b == Path::var(
            y,
        ).then_step(Step::Index(z)) {
        let (x, y, z) = choose|x: Name, y: Name, z: Name| #[trigger]
            e.load_index_const.contains((s, x, y, z)) && a == Path::var(x) && b == Path::var(
                y,
            ).then_step(Step::Index(z));
        assert(b == off(Root::Var(y), Step::Index(z)));
    } else if exists|x: Name, y: Name, z: Name| #[trigger]
        e.store_index_const.contains((s, x, y, z)) && a == Path::var(x).then_step(Step::Index(y))
            && b == Path::var(z) {
        let (x, y, z) = choose|x: Name, y: Name, z: Name| #[trigger]
            e.store_index_const.contains((s, x, y, z)) && a == Path::var(x).then_step(
                Step::Index(y),
            ) && b == Path::var(z);
        assert(a == off(Root::Var(x), Step::Index(y)));
    } else if e.critical(s) && e.wires(s, a, b) {
        let id = Instance::origin(s);
        assert(e.crit_origin(p, s, id));
        assert(answers(h).crit_origin.contains((p, s, id)));
    }
}

/// A constraint is there because the syntax spells it out, because both sides of one that
/// is there are extended alike, because a callee or a resolved implementation has it over
/// roots that land here, or because an access through an index is decided; and for no
/// other reason.
pub proof fn law_why_a_constraint_holds(h: &HybridAnalysis, seed: Core, p: Name, a: Path, b: Path)
    requires
        h.derived_from(seed),
        answers(h).edge.contains((p, a, b)),
    ensures
        ({
            ||| seed.edge.contains((p, a, b))
            ||| spelled_out(h, p, a, b)
            ||| exists|x: Path, y: Path, rest: Seq<Step>|
                {
                    &&& #[trigger] answers(h).edge.contains((p, x, y))
                    &&& rest.len() > 0
                    &&& a.root == x.root && a.steps == #[trigger] (x.steps + rest)
                    &&& b.root == y.root && b.steps == y.steps + rest
                    &&& {
                        ||| answers(h).path_used.contains((p, a.root, a))
                            && h.program@.paths.contains(b.steps)
                        ||| answers(h).path_used.contains((p, b.root, b))
                            && h.program@.paths.contains(a.steps)
                    }
                }
            ||| exists|s: Name, n: usize, c: Name, x: Path, y: Path|
                {
                    &&& #[trigger] h.program@.in_proc.contains((s, p, n))
                    &&& answers(h).eff_direct.contains((s, c))
                    &&& #[trigger] answers(h).points.contains((c, x, Value::Path(y)))
                    &&& answers(h).root_map.contains((s, x.root, a.root)) && a.steps == x.steps
                    &&& answers(h).root_map.contains((s, y.root, b.root)) && b.steps == y.steps
                }
            ||| exists|id: Instance, c: Name, x: Path, y: Path|
                {
                    &&& #[trigger] answers(h).resolve.contains((p, id, c))
                    &&& #[trigger] answers(h).points.contains((c, x, Value::Path(y)))
                    &&& lands(c, id, x.root, a.root, h.k_limit as nat) && a.steps == x.steps
                    &&& lands(c, id, y.root, b.root, h.k_limit as nat) && b.steps == y.steps
                }
            ||| exists|id: Instance, acc: Step, w: Path|
                {
                    let ext = Path { root: w.root, steps: w.steps.push(acc) };
                    &&& #[trigger] answers(h).index_acc.contains((p, id, acc))
                    &&& #[trigger] stands_for(h, p, id, w)
                    &&& h.program@.paths.contains(w.steps.push(acc))
                    &&& {
                        ||| answers(h).load_crit.contains((id,)) && a == bare(Root::Res(id)) && b
                            == ext
                        ||| answers(h).store_crit.contains((id,)) && a == ext && b == bare(
                            Root::Slot(id, 2),
                        )
                    }
                }
        }),
{
    let (w, m, e, r) = (h.setting(), h.said(), h.program@, answers(h));
    lemma_core_supported(w, seed, m);
    assert(m.edge.contains((p, a, b)));
    if w.edge_by_statement(p, a, b) {
        let s = choose|s: Name| #[trigger] e.stands_in(s, p) && e.says(s, a, b);
        lemma_spelled_out(h, seed, p, s, a, b);
    }
    if w.edge_by_extending_sup(m, p, a, b) {
        let (x, y) = choose|x: Path, y: Path| #[trigger]
            m.edge.contains((p, x, y)) && rules::congruent(x, y, a, b);
        let rest = a.steps.skip(x.steps.len() as int);
        assert(x.steps + rest =~= a.steps);
        assert(r.edge.contains((p, x, y)));
        assert(r.path_used.contains((p, a.root, a)));
        assert(a.steps == x.steps + rest && b.steps == y.steps + rest);
    }
    if w.edge_by_extending_sub(m, p, a, b) {
        let (x, y) = choose|x: Path, y: Path| #[trigger]
            m.edge.contains((p, x, y)) && rules::congruent(y, x, b, a);
        let rest = b.steps.skip(y.steps.len() as int);
        assert(y.steps + rest =~= b.steps);
        assert(r.edge.contains((p, x, y)));
        assert(r.path_used.contains((p, b.root, b)));
        assert(a.steps == x.steps + rest && b.steps == y.steps + rest);
    }
    if w.edge_by_call(m, p, a, b) {
        let (s, c, x, y) = choose|s: Name, c: Name, x: Path, y: Path|
            {
                &&& #[trigger] e.eff_direct(s, c)
                &&& e.stands_in(s, p)
                &&& #[trigger] m.points.contains((c, x, Value::Path(y)))
                &&& w.root_map(m, s, x.root, a.root)
                &&& w.root_map(m, s, y.root, b.root)
                &&& a.steps == x.steps
                &&& b.steps == y.steps
            };
        let n = choose|n: usize| e.in_proc.contains((s, p, n));
        assert(e.in_proc.contains((s, p, n)) && r.points.contains((c, x, Value::Path(y))));
        assert(r.eff_direct.contains((s, c)));
        assert(r.root_map.contains((s, x.root, a.root)));
        assert(r.root_map.contains((s, y.root, b.root)));
    }
    if w.edge_by_dispatch(m, p, a, b) {
        let (id, c, x, y) = choose|id: Instance, c: Name, x: Path, y: Path|
            {
                &&& #[trigger] w.resolve(m, p, id, c)
                &&& #[trigger] m.points.contains((c, x, Value::Path(y)))
                &&& rules::crit_root(c, id, x.root, w.k) == Some(a.root)
                &&& rules::crit_root(c, id, y.root, w.k) == Some(b.root)
                &&& a.steps == x.steps
                &&& b.steps == y.steps
            };
        law_resolved_roots_land(c, id, x.root, a.root, w.k);
        law_resolved_roots_land(c, id, y.root, b.root, w.k);
        assert(r.resolve.contains((p, id, c)) && r.points.contains((c, x, Value::Path(y))));
    }
    if w.edge_by_load(m, p, a, b) {
        let (id, acc, x) = choose|id: Instance, acc: Step, x: Path|
            {
                &&& #[trigger] w.index_acc(m, p, id, acc)
                &&& e.load_stmt(id.stmt)
                &&& #[trigger] w.base_of(m, p, id, x)
                &&& a == Path::res(id)
                &&& b == x.then_step(acc)
            };
        lemma_decided(h, seed, p, id, acc, x);
    }
    if w.edge_by_store(m, p, a, b) {
        let (id, acc, x) = choose|id: Instance, acc: Step, x: Path|
            {
                &&& #[trigger] w.index_acc(m, p, id, acc)
                &&& e.store_stmt(id.stmt)
                &&& #[trigger] w.base_of(m, p, id, x)
                &&& a == x.then_step(acc)
                &&& b == Path::slot(id, 2)
            };
        lemma_decided(h, seed, p, id, acc, x);
    }
}

/// The base operand of an access contains the path, or holds it as a value.
pub open spec fn stands_for(h: &HybridAnalysis, p: Name, id: Instance, w: Path) -> bool {
    ||| answers(h).edge.contains((p, bare(Root::Slot(id, 0)), w))
    ||| answers(h).points.contains((p, bare(Root::Slot(id, 0)), Value::Path(w)))
}

proof fn lemma_decided(
    h: &HybridAnalysis,
    seed: Core,
    p: Name,
    id: Instance,
    acc: Step,
    x: Path,
)
    requires
        h.derived_from(seed),
        h.setting().index_acc(h.said(), p, id, acc),
        h.setting().base_of(h.said(), p, id, x),
    ensures
        answers(h).index_acc.contains((p, id, acc)),
        stands_for(h, p, id, x),
        answers(h).load_crit.contains((id,)) <==> h.program@.load_stmt(id.stmt),
        answers(h).store_crit.contains((id,)) <==> h.program@.store_stmt(id.stmt),
{
    let (w, m, r) = (h.setting(), h.said(), answers(h));
    assert(bare(Root::Slot(id, 0)) == Path::slot(id, 0));
    assert(r.index_acc.contains((p, id, acc)));
    assert(m.pending.contains((p, id))) by {
        if acc is Unknown && !w.index_undecidable(m, p, id) {
            assert(w.blocked(m, p, id));
        }
    }
    lemma_held(m, id);
    assert(r.load_crit.contains((id,)) <==> held_anywhere(m).contains((id,)) && w.e.load_stmt(
        id.stmt,
    ));
    assert(r.store_crit.contains((id,)) <==> held_anywhere(m).contains((id,)) && w.e.store_stmt(
        id.stmt,
    ));
}

// ---------------------------------------------------------------------------
// Runs
// ---------------------------------------------------------------------------

/// A run analyses the facts of its program under its limit, and is finished: the laws here
/// hold of what it returns, with nothing given but the facts.
pub proof fn law_runs_are_finished(prog: &Program, k: usize, h: HybridAnalysis)
    requires
        call_ensures(run_hybrid, (prog, k), h),
    ensures
        h.derived_from(Core::nothing()),
        h.k_limit == k,
        h.program@.procedure == prog@.procedure,
        h.program@.proc_type == prog@.proc_type,
        h.program@.proc_sig == prog@.proc_sig,
        h.program@.entry == prog@.entry,
        h.program@.in_proc == prog@.in_proc,
        h.program@.alloc == prog@.alloc,
        h.program@.alloc_type == prog@.alloc_type,
        h.program@.const_assign == prog@.const_assign,
        h.program@.mov == prog@.mov,
        h.program@.load_field == prog@.load_field,
        h.program@.store_field == prog@.store_field,
        h.program@.load_static == prog@.load_static,
        h.program@.store_static == prog@.store_static,
        h.program@.load_index_const == prog@.load_index_const,
        h.program@.store_index_const == prog@.store_index_const,
        h.program@.load_index_var == prog@.load_index_var,
        h.program@.store_index_var == prog@.store_index_var,
        h.program@.direct_call == prog@.direct_call,
        h.program@.virtual_call == prog@.virtual_call,
        h.program@.actual_arg == prog@.actual_arg,
        h.program@.bind_ret == prog@.bind_ret,
        h.program@.formal == prog@.formal,
        h.program@.ret == prog@.ret,
        h.program@.direct_subtype == prog@.direct_subtype,
        h.program@.lookup == prog@.lookup,
{
}

/// What a procedure returns arrives where its result is taken: an allocation or a constant
/// that a returned variable of the callee holds is held by the variable that the call
/// binds its result to.
pub proof fn law_returned_values_arrive(
    prog: &Program,
    k: usize,
    h: HybridAnalysis,
    c: Name,
    x: Name,
    v: Value,
    s: Name,
    p: Name,
    n: usize,
    r: Name,
)
    requires
        call_ensures(run_hybrid, (prog, k), h),
        v is Alloc || v is Const,
        tuples(h.points@).contains((c, bare(Root::Var(x)), v)),
        prog@.ret.contains((c, x)),
        prog@.direct_call.contains((s, c)),
        prog@.in_proc.contains((s, p, n)),
        prog@.bind_ret.contains((s, r)),
    ensures
        tuples(h.points@).contains((p, bare(Root::Var(r)), v)),
{
    let seed = Core::nothing();
    law_formals_and_returns(&h, seed, c, 0, x);
    let (a, b) = (bare(Root::Ret(c)), bare(Root::Var(x)));
    law_constraints_carry_values(&h, seed, c, a, b, v, Seq::empty());
    law_concrete_values_reach_callers(
        &h,
        seed,
        c,
        p,
        s,
        n,
        r,
        0,
        Instance { stmt: s, chain: Seq::empty() },
        Seq::empty(),
        v,
    );
}

/// A local that is given an allocation or a constant holds it, and so does what it is
/// moved to.
pub proof fn law_assigned_values_are_held(
    prog: &Program,
    k: usize,
    h: HybridAnalysis,
    p: Name,
    s: Name,
    n: usize,
    x: Name,
    l: Name,
    t: Name,
    m: usize,
    y: Name,
)
    requires
        call_ensures(run_hybrid, (prog, k), h),
        prog@.in_proc.contains((s, p, n)),
        prog@.in_proc.contains((t, p, m)),
        prog@.mov.contains((t, y, x)),
    ensures
        prog@.alloc.contains((s, x, l)) ==> {
            &&& tuples(h.points@).contains((p, bare(Root::Var(x)), Value::Alloc(l)))
            &&& tuples(h.points@).contains((p, bare(Root::Var(y)), Value::Alloc(l)))
        },
        prog@.const_assign.contains((s, x, l)) ==> {
            &&& tuples(h.points@).contains((p, bare(Root::Var(x)), Value::Const(l)))
            &&& tuples(h.points@).contains((p, bare(Root::Var(y)), Value::Const(l)))
        },
{
    let seed = Core::nothing();
    law_statements_take_effect(&h, seed, p, s, n, x, l, l);
    law_statements_take_effect(&h, seed, p, t, m, y, x, x);
    let (a, b) = (bare(Root::Var(y)), bare(Root::Var(x)));
    law_constraints_carry_values(&h, seed, p, a, b, Value::Alloc(l), Seq::empty());
    law_constraints_carry_values(&h, seed, p, a, b, Value::Const(l), Seq::empty());
}

} // verus!
