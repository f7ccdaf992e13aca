//! Running an analysis whose relations hold tuples already.
//!
//! Every tuple that a relation holds before a run counts as a fact, whichever relation
//! it is. The relations are read into one store, closed under the table of rules, and
//! read back.
use vstd::prelude::*;

use crate::access_path::{AccessPath, Accessor, Base, CritId, PtVal};
use crate::analysis::HybridAnalysis;
use crate::cells::{same_rows, things, Cell, Record, Thing};
use crate::clauses::{self, group, groups};
use crate::datalog::{
    close, distinct_rows, law_given_tuples_stay, least, row_in, settles, Stock, Truth, RELS,
};
use crate::ir::{ArgIdx, Proc, Program, Sig, Stmt, Var};
use crate::tuples::{distinct, exact, tuples};

verus! {

// ---------------------------------------------------------------------------
// What is given
// ---------------------------------------------------------------------------

/// A row of the list.
pub open spec fn listed<R: Record>(v: Seq<R>, cells: Seq<Thing>) -> bool {
    exists|i: int| 0 <= i < v.len() && R::row((#[trigger] v[i])@) == cells
}

/// A fact of the program, or its limit.
pub open spec fn is_fact(p: Program, k: usize, t: Truth) -> bool {
    ||| t.rel == clauses::PROCEDURE && listed(p.procedure@, t.cells)
    ||| t.rel == clauses::PROC_TYPE && listed(p.proc_type@, t.cells)
    ||| t.rel == clauses::PROC_SIG && listed(p.proc_sig@, t.cells)
    ||| t.rel == clauses::ENTRY && listed(p.entry@, t.cells)
    ||| t.rel == clauses::IN_PROC && listed(p.in_proc@, t.cells)
    ||| t.rel == clauses::ALLOC && listed(p.alloc@, t.cells)
    ||| t.rel == clauses::ALLOC_TYPE && listed(p.alloc_type@, t.cells)
    ||| t.rel == clauses::CONST_ASSIGN && listed(p.const_assign@, t.cells)
    ||| t.rel == clauses::MOV && listed(p.mov@, t.cells)
    ||| t.rel == clauses::LOAD_FIELD && listed(p.load_field@, t.cells)
    ||| t.rel == clauses::STORE_FIELD && listed(p.store_field@, t.cells)
    ||| t.rel == clauses::LOAD_STATIC && listed(p.load_static@, t.cells)
    ||| t.rel == clauses::STORE_STATIC && listed(p.store_static@, t.cells)
    ||| t.rel == clauses::LOAD_INDEX_CONST && listed(p.load_index_const@, t.cells)
    ||| t.rel == clauses::STORE_INDEX_CONST && listed(p.store_index_const@, t.cells)
    ||| t.rel == clauses::LOAD_INDEX_VAR && listed(p.load_index_var@, t.cells)
    ||| t.rel == clauses::STORE_INDEX_VAR && listed(p.store_index_var@, t.cells)
    ||| t.rel == clauses::DIRECT_CALL && listed(p.direct_call@, t.cells)
    ||| t.rel == clauses::VIRTUAL_CALL && listed(p.virtual_call@, t.cells)
    ||| t.rel == clauses::ACTUAL_ARG && listed(p.actual_arg@, t.cells)
    ||| t.rel == clauses::BIND_RET && listed(p.bind_ret@, t.cells)
    ||| t.rel == clauses::FORMAL && listed(p.formal@, t.cells)
    ||| t.rel == clauses::RET && listed(p.ret@, t.cells)
    ||| t.rel == clauses::DIRECT_SUBTYPE && listed(p.direct_subtype@, t.cells)
    ||| t.rel == clauses::LOOKUP && listed(p.lookup@, t.cells)
    ||| t.rel == clauses::PATHS && listed(p.paths@, t.cells)
    ||| t.rel == clauses::K_LIMIT && t.cells == seq![Thing::Num(k)]
}

/// A tuple that a relation of the analysis holds.
pub open spec fn is_held(h: &HybridAnalysis, t: Truth) -> bool {
    ||| t.rel == clauses::SIG_TARGET && listed(h.sig_target@, t.cells)
    ||| t.rel == clauses::SIG_SIZE && listed(h.sig_size@, t.cells)
    ||| t.rel == clauses::MONO_TARGET && listed(h.mono_target@, t.cells)
    ||| t.rel == clauses::EFF_DIRECT && listed(h.eff_direct@, t.cells)
    ||| t.rel == clauses::CRITICAL && listed(h.critical@, t.cells)
    ||| t.rel == clauses::KNOWN_PROC && listed(h.known_proc@, t.cells)
    ||| t.rel == clauses::IS_CALLED && listed(h.is_called@, t.cells)
    ||| t.rel == clauses::UNCALLED && listed(h.uncalled@, t.cells)
    ||| t.rel == clauses::EDGE && listed(h.edge@, t.cells)
    ||| t.rel == clauses::POINTS && listed(h.points@, t.cells)
    ||| t.rel == clauses::PATH_USED && listed(h.path_used@, t.cells)
    ||| t.rel == clauses::CRIT_ORIGIN && listed(h.crit_origin@, t.cells)
    ||| t.rel == clauses::PENDING && listed(h.pending@, t.cells)
    ||| t.rel == clauses::CAN_PROPAGATE && listed(h.can_propagate@, t.cells)
    ||| t.rel == clauses::CARRIES && listed(h.carries@, t.cells)
    ||| t.rel == clauses::DECISIVE_VAR && listed(h.decisive_var@, t.cells)
    ||| t.rel == clauses::SLOT_FROM_FORMAL && listed(h.slot_from_formal@, t.cells)
    ||| t.rel == clauses::WILL_PROPAGATE && listed(h.will_propagate@, t.cells)
    ||| t.rel == clauses::STUCK && listed(h.stuck@, t.cells)
    ||| t.rel == clauses::CRIT_OPERAND && listed(h.crit_operand@, t.cells)
    ||| t.rel == clauses::CALL_CRIT && listed(h.call_crit@, t.cells)
    ||| t.rel == clauses::LOAD_CRIT && listed(h.load_crit@, t.cells)
    ||| t.rel == clauses::STORE_CRIT && listed(h.store_crit@, t.cells)
    ||| t.rel == clauses::INDEX_CRIT && listed(h.index_crit@, t.cells)
    ||| t.rel == clauses::DECISIVE_SLOT && listed(h.decisive_slot@, t.cells)
    ||| t.rel == clauses::CRIT_SIG && listed(h.crit_sig@, t.cells)
    ||| t.rel == clauses::FREE_ROOT && listed(h.free_root@, t.cells)
    ||| t.rel == clauses::PUB_ROOT && listed(h.pub_root@, t.cells)
    ||| t.rel == clauses::PUB_POINTS && listed(h.pub_points@, t.cells)
    ||| t.rel == clauses::ROOT_MAP && listed(h.root_map@, t.cells)
    ||| t.rel == clauses::BLOCKED && listed(h.blocked@, t.cells)
    ||| t.rel == clauses::TOP && listed(h.top@, t.cells)
    ||| t.rel == clauses::RESOLVE && listed(h.resolve@, t.cells)
    ||| t.rel == clauses::INDEX_UNDECIDABLE && listed(h.index_undecidable@, t.cells)
    ||| t.rel == clauses::INDEX_ACC && listed(h.index_acc@, t.cells)
    ||| t.rel == clauses::ADEQUATE && listed(h.adequate@, t.cells)
    ||| t.rel == clauses::SETTLED && listed(h.settled@, t.cells)
}

/// Everything that an analysis starts from.
pub open spec fn given(h: &HybridAnalysis) -> Set<Truth> {
    Set::new(|t: Truth| is_fact(h.program, h.k_limit, t) || is_held(h, t))
}

// ---------------------------------------------------------------------------
// What comes out
// ---------------------------------------------------------------------------

/// The tuples of one relation.
pub open spec fn picked<R: Record>(m: Set<Truth>, rel: usize) -> Set<R::V> {
    Set::new(|x: R::V| m.contains(Truth { rel, cells: R::row(x) }))
}

/// The relations list what `m` holds, each tuple once.
pub open spec fn lists_model(h: &HybridAnalysis, m: Set<Truth>) -> bool {
    &&& exact(h.sig_target@, picked::<(Sig, Proc)>(m, clauses::SIG_TARGET))
    &&& exact(h.sig_size@, picked::<(Sig, usize)>(m, clauses::SIG_SIZE))
    &&& exact(h.mono_target@, picked::<(Stmt, Proc)>(m, clauses::MONO_TARGET))
    &&& exact(h.eff_direct@, picked::<(Stmt, Proc)>(m, clauses::EFF_DIRECT))
    &&& exact(h.critical@, picked::<(Stmt,)>(m, clauses::CRITICAL))
    &&& exact(h.known_proc@, picked::<(Proc,)>(m, clauses::KNOWN_PROC))
    &&& exact(h.is_called@, picked::<(Proc,)>(m, clauses::IS_CALLED))
    &&& exact(h.uncalled@, picked::<(Proc,)>(m, clauses::UNCALLED))
    &&& exact(h.edge@, picked::<(Proc, AccessPath, AccessPath)>(m, clauses::EDGE))
    &&& exact(h.points@, picked::<(Proc, AccessPath, PtVal)>(m, clauses::POINTS))
    &&& exact(h.path_used@, picked::<(Proc, Base, AccessPath)>(m, clauses::PATH_USED))
    &&& exact(h.crit_origin@, picked::<(Proc, Stmt, CritId)>(m, clauses::CRIT_ORIGIN))
    &&& exact(h.pending@, picked::<(Proc, CritId)>(m, clauses::PENDING))
    &&& exact(h.can_propagate@, picked::<(Proc, CritId)>(m, clauses::CAN_PROPAGATE))
    &&& exact(h.carries@, picked::<(Proc, Var, ArgIdx)>(m, clauses::CARRIES))
    &&& exact(h.decisive_var@, picked::<(Stmt, Var)>(m, clauses::DECISIVE_VAR))
    &&& exact(h.slot_from_formal@, picked::<(Proc, CritId, ArgIdx)>(m, clauses::SLOT_FROM_FORMAL))
    &&& exact(h.will_propagate@, picked::<(Proc, CritId)>(m, clauses::WILL_PROPAGATE))
    &&& exact(h.stuck@, picked::<(Proc, CritId)>(m, clauses::STUCK))
    &&& exact(h.crit_operand@, picked::<(CritId, ArgIdx)>(m, clauses::CRIT_OPERAND))
    &&& exact(h.call_crit@, picked::<(CritId,)>(m, clauses::CALL_CRIT))
    &&& exact(h.load_crit@, picked::<(CritId,)>(m, clauses::LOAD_CRIT))
    &&& exact(h.store_crit@, picked::<(CritId,)>(m, clauses::STORE_CRIT))
    &&& exact(h.index_crit@, picked::<(CritId,)>(m, clauses::INDEX_CRIT))
    &&& exact(h.decisive_slot@, picked::<(CritId, ArgIdx)>(m, clauses::DECISIVE_SLOT))
    &&& exact(h.crit_sig@, picked::<(CritId, Sig)>(m, clauses::CRIT_SIG))
    &&& exact(h.free_root@, picked::<(Proc, Base)>(m, clauses::FREE_ROOT))
    &&& exact(h.pub_root@, picked::<(Proc, Base)>(m, clauses::PUB_ROOT))
    &&& exact(h.pub_points@, picked::<(Proc, AccessPath, PtVal)>(m, clauses::PUB_POINTS))
    &&& exact(h.root_map@, picked::<(Stmt, Base, Base)>(m, clauses::ROOT_MAP))
    &&& exact(h.blocked@, picked::<(Proc, CritId)>(m, clauses::BLOCKED))
    &&& exact(h.top@, picked::<(Proc, CritId)>(m, clauses::TOP))
    &&& exact(h.resolve@, picked::<(Proc, CritId, Proc)>(m, clauses::RESOLVE))
    &&& exact(h.index_undecidable@, picked::<(Proc, CritId)>(m, clauses::INDEX_UNDECIDABLE))
    &&& exact(h.index_acc@, picked::<(Proc, CritId, Accessor)>(m, clauses::INDEX_ACC))
    &&& exact(h.adequate@, picked::<(Proc, CritId)>(m, clauses::ADEQUATE))
    &&& exact(h.settled@, picked::<(Proc, CritId)>(m, clauses::SETTLED))
}

/// `after` lists what the rules make of everything that `before` holds.
pub open spec fn resumed(before: &HybridAnalysis, after: &HybridAnalysis) -> bool {
    exists|m: Set<Truth>| #[trigger]
        settles(groups(), given(before), m) && lists_model(after, m)
}

/// A tuple that a relation holds before a run is there after it.
pub proof fn law_held_tuples_stay(before: &HybridAnalysis, after: &HybridAnalysis, t: Truth)
    requires
        resumed(before, after),
        is_held(before, t),
    ensures
        is_held(after, t),
{
    let m = choose|m: Set<Truth>| #[trigger]
        settles(groups(), given(before), m) && lists_model(after, m);
    law_given_tuples_stay(groups(), given(before), m);
    assert(given(before).contains(t));
    if t.rel == clauses::SIG_TARGET && listed(before.sig_target@, t.cells) {
        lemma_stays(before.sig_target@, after.sig_target@, m, t);
    }
    if t.rel == clauses::SIG_SIZE && listed(before.sig_size@, t.cells) {
        lemma_stays(before.sig_size@, after.sig_size@, m, t);
    }
    if t.rel == clauses::MONO_TARGET && listed(before.mono_target@, t.cells) {
        lemma_stays(before.mono_target@, after.mono_target@, m, t);
    }
    if t.rel == clauses::EFF_DIRECT && listed(before.eff_direct@, t.cells) {
        lemma_stays(before.eff_direct@, after.eff_direct@, m, t);
    }
    if t.rel == clauses::CRITICAL && listed(before.critical@, t.cells) {
        lemma_stays(before.critical@, after.critical@, m, t);
    }
    if t.rel == clauses::KNOWN_PROC && listed(before.known_proc@, t.cells) {
        lemma_stays(before.known_proc@, after.known_proc@, m, t);
    }
    if t.rel == clauses::IS_CALLED && listed(before.is_called@, t.cells) {
        lemma_stays(before.is_called@, after.is_called@, m, t);
    }
    if t.rel == clauses::UNCALLED && listed(before.uncalled@, t.cells) {
        lemma_stays(before.uncalled@, after.uncalled@, m, t);
    }
    if t.rel == clauses::EDGE && listed(before.edge@, t.cells) {
        lemma_stays(before.edge@, after.edge@, m, t);
    }
    if t.rel == clauses::POINTS && listed(before.points@, t.cells) {
        lemma_stays(before.points@, after.points@, m, t);
    }
    if t.rel == clauses::PATH_USED && listed(before.path_used@, t.cells) {
        lemma_stays(before.path_used@, after.path_used@, m, t);
    }
    if t.rel == clauses::CRIT_ORIGIN && listed(before.crit_origin@, t.cells) {
        lemma_stays(before.crit_origin@, after.crit_origin@, m, t);
    }
    if t.rel == clauses::PENDING && listed(before.pending@, t.cells) {
        lemma_stays(before.pending@, after.pending@, m, t);
    }
    if t.rel == clauses::CAN_PROPAGATE && listed(before.can_propagate@, t.cells) {
        lemma_stays(before.can_propagate@, after.can_propagate@, m, t);
    }
    if t.rel == clauses::CARRIES && listed(before.carries@, t.cells) {
        lemma_stays(before.carries@, after.carries@, m, t);
    }
    if t.rel == clauses::DECISIVE_VAR && listed(before.decisive_var@, t.cells) {
        lemma_stays(before.decisive_var@, after.decisive_var@, m, t);
    }
    if t.rel == clauses::SLOT_FROM_FORMAL && listed(before.slot_from_formal@, t.cells) {
        lemma_stays(before.slot_from_formal@, after.slot_from_formal@, m, t);
    }
    if t.rel == clauses::WILL_PROPAGATE && listed(before.will_propagate@, t.cells) {
        lemma_stays(before.will_propagate@, after.will_propagate@, m, t);
    }
    if t.rel == clauses::STUCK && listed(before.stuck@, t.cells) {
        lemma_stays(before.stuck@, after.stuck@, m, t);
    }
    if t.rel == clauses::CRIT_OPERAND && listed(before.crit_operand@, t.cells) {
        lemma_stays(before.crit_operand@, after.crit_operand@, m, t);
    }
    if t.rel == clauses::CALL_CRIT && listed(before.call_crit@, t.cells) {
        lemma_stays(before.call_crit@, after.call_crit@, m, t);
    }
    if t.rel == clauses::LOAD_CRIT && listed(before.load_crit@, t.cells) {
        lemma_stays(before.load_crit@, after.load_crit@, m, t);
    }
    if t.rel == clauses::STORE_CRIT && listed(before.store_crit@, t.cells) {
        lemma_stays(before.store_crit@, after.store_crit@, m, t);
    }
    if t.rel == clauses::INDEX_CRIT && listed(before.index_crit@, t.cells) {
        lemma_stays(before.index_crit@, after.index_crit@, m, t);
    }
    if t.rel == clauses::DECISIVE_SLOT && listed(before.decisive_slot@, t.cells) {
        lemma_stays(before.decisive_slot@, after.decisive_slot@, m, t);
    }
    if t.rel == clauses::CRIT_SIG && listed(before.crit_sig@, t.cells) {
        lemma_stays(before.crit_sig@, after.crit_sig@, m, t);
    }
    if t.rel == clauses::FREE_ROOT && listed(before.free_root@, t.cells) {
        lemma_stays(before.free_root@, after.free_root@, m, t);
    }
    if t.rel == clauses::PUB_ROOT && listed(before.pub_root@, t.cells) {
        lemma_stays(before.pub_root@, after.pub_root@, m, t);
    }
    if t.rel == clauses::PUB_POINTS && listed(before.pub_points@, t.cells) {
        lemma_stays(before.pub_points@, after.pub_points@, m, t);
    }
    if t.rel == clauses::ROOT_MAP && listed(before.root_map@, t.cells) {
        lemma_stays(before.root_map@, after.root_map@, m, t);
    }
    if t.rel == clauses::BLOCKED && listed(before.blocked@, t.cells) {
        lemma_stays(before.blocked@, after.blocked@, m, t);
    }
    if t.rel == clauses::TOP && listed(before.top@, t.cells) {
        lemma_stays(before.top@, after.top@, m, t);
    }
    if t.rel == clauses::RESOLVE && listed(before.resolve@, t.cells) {
        lemma_stays(before.resolve@, after.resolve@, m, t);
    }
    if t.rel == clauses::INDEX_UNDECIDABLE && listed(before.index_undecidable@, t.cells) {
        lemma_stays(before.index_undecidable@, after.index_undecidable@, m, t);
    }
    if t.rel == clauses::INDEX_ACC && listed(before.index_acc@, t.cells) {
        lemma_stays(before.index_acc@, after.index_acc@, m, t);
    }
    if t.rel == clauses::ADEQUATE && listed(before.adequate@, t.cells) {
        lemma_stays(before.adequate@, after.adequate@, m, t);
    }
    if t.rel == clauses::SETTLED && listed(before.settled@, t.cells) {
        lemma_stays(before.settled@, after.settled@, m, t);
    }
}

proof fn lemma_stays<R: Record>(before: Seq<R>, after: Seq<R>, m: Set<Truth>, t: Truth)
    requires
        listed(before, t.cells),
        m.contains(t),
        exact(after, picked::<R>(m, t.rel)),
    ensures
        listed(after, t.cells),
{
    let i = choose|i: int| 0 <= i < before.len() && R::row((#[trigger] before[i])@) == t.cells;
    let x = before[i]@;
    assert(t =~= (Truth { rel: t.rel, cells: R::row(x) }));
    assert(picked::<R>(m, t.rel).contains(x));
    assert(tuples(after).contains(x));
    let j = choose|j: int| 0 <= j < after.len() && (#[trigger] after[j])@ == x;
    assert(R::row(after[j]@) == t.cells);
}

// ---------------------------------------------------------------------------
// Reading in
// ---------------------------------------------------------------------------

fn add_list<R: Record>(s: &mut Stock, rel: usize, v: &Vec<R>)
    requires
        old(s).wf(),
        rel < RELS,
    ensures
        final(s).wf(),
        forall|t: Truth| #[trigger]
            final(s)@.contains(t) <==> old(s)@.contains(t) || (t.rel == rel && listed(v@, t.cells)),
{
    let ghost start = s@;
    let mut i: usize = 0;
    while i < v.len()
        invariant
            i <= v@.len(),
            s.wf(),
            rel < RELS,
            forall|t: Truth| #[trigger]
                s@.contains(t) <==> start.contains(t) || (t.rel == rel && exists|j: int|
                    0 <= j < i && R::row((#[trigger] v@[j])@) == t.cells),
        decreases v@.len() - i,
    {
        let row = v[i].cells();
        let ghost before = s@;
        let ghost t0 = Truth { rel, cells: things(row@) };
        s.put(rel, row);
        proof {
            assert forall|t: Truth| #[trigger] s@.contains(t) <==> start.contains(t) || (t.rel
                == rel && exists|j: int|
                0 <= j < i + 1 && R::row((#[trigger] v@[j])@) == t.cells) by {
                assert(s@.contains(t) <==> before.contains(t) || t == t0);
                if t == t0 {
                    assert(R::row(v@[i as int]@) == t.cells);
                }
                if exists|j: int| 0 <= j < i && R::row((#[trigger] v@[j])@) == t.cells {
                    let j = choose|j: int| 0 <= j < i && R::row((#[trigger] v@[j])@) == t.cells;
                    assert(R::row(v@[j]@) == t.cells);
                }
                if t.rel == rel && exists|j: int|
                    0 <= j < i + 1 && R::row((#[trigger] v@[j])@) == t.cells {
                    let j = choose|j: int|
                        0 <= j < i + 1 && R::row((#[trigger] v@[j])@) == t.cells;
                    if j == i {
                        assert(t =~= t0);
                    } else {
                        assert(R::row(v@[j]@) == t.cells);
                    }
                }
            }
        }
        i += 1;
    }
}

spec fn add_facts_a_part(p: Program, t: Truth) -> bool {
    ||| t.rel == clauses::PROCEDURE && listed(p.procedure@, t.cells)
    ||| t.rel == clauses::PROC_TYPE && listed(p.proc_type@, t.cells)
    ||| t.rel == clauses::PROC_SIG && listed(p.proc_sig@, t.cells)
    ||| t.rel == clauses::ENTRY && listed(p.entry@, t.cells)
    ||| t.rel == clauses::IN_PROC && listed(p.in_proc@, t.cells)
    ||| t.rel == clauses::ALLOC && listed(p.alloc@, t.cells)
    ||| t.rel == clauses::ALLOC_TYPE && listed(p.alloc_type@, t.cells)
    ||| t.rel == clauses::CONST_ASSIGN && listed(p.const_assign@, t.cells)
    ||| t.rel == clauses::MOV && listed(p.mov@, t.cells)
}

fn add_facts_a(s: &mut Stock, p: &Program)
    requires
        old(s).wf(),
    ensures
        final(s).wf(),
        forall|t: Truth| #[trigger]
            final(s)@.contains(t) <==> old(s)@.contains(t) || add_facts_a_part(*p, t),
{
    add_list(s, clauses::PROCEDURE, &p.procedure);
    add_list(s, clauses::PROC_TYPE, &p.proc_type);
    add_list(s, clauses::PROC_SIG, &p.proc_sig);
    add_list(s, clauses::ENTRY, &p.entry);
    add_list(s, clauses::IN_PROC, &p.in_proc);
    add_list(s, clauses::ALLOC, &p.alloc);
    add_list(s, clauses::ALLOC_TYPE, &p.alloc_type);
    add_list(s, clauses::CONST_ASSIGN, &p.const_assign);
    add_list(s, clauses::MOV, &p.mov);
}

spec fn add_facts_b_part(p: Program, t: Truth) -> bool {
    ||| t.rel == clauses::LOAD_FIELD && listed(p.load_field@, t.cells)
    ||| t.rel == clauses::STORE_FIELD && listed(p.store_field@, t.cells)
    ||| t.rel == clauses::LOAD_STATIC && listed(p.load_static@, t.cells)
    ||| t.rel == clauses::STORE_STATIC && listed(p.store_static@, t.cells)
    ||| t.rel == clauses::LOAD_INDEX_CONST && listed(p.load_index_const@, t.cells)
    ||| t.rel == clauses::STORE_INDEX_CONST && listed(p.store_index_const@, t.cells)
    ||| t.rel == clauses::LOAD_INDEX_VAR && listed(p.load_index_var@, t.cells)
    ||| t.rel == clauses::STORE_INDEX_VAR && listed(p.store_index_var@, t.cells)
    ||| t.rel == clauses::DIRECT_CALL && listed(p.direct_call@, t.cells)
}

fn add_facts_b(s: &mut Stock, p: &Program)
    requires
        old(s).wf(),
    ensures
        final(s).wf(),
        forall|t: Truth| #[trigger]
            final(s)@.contains(t) <==> old(s)@.contains(t) || add_facts_b_part(*p, t),
{
    add_list(s, clauses::LOAD_FIELD, &p.load_field);
    add_list(s, clauses::STORE_FIELD, &p.store_field);
    add_list(s, clauses::LOAD_STATIC, &p.load_static);
    add_list(s, clauses::STORE_STATIC, &p.store_static);
    add_list(s, clauses::LOAD_INDEX_CONST, &p.load_index_const);
    add_list(s, clauses::STORE_INDEX_CONST, &p.store_index_const);
    add_list(s, clauses::LOAD_INDEX_VAR, &p.load_index_var);
    add_list(s, clauses::STORE_INDEX_VAR, &p.store_index_var);
    add_list(s, clauses::DIRECT_CALL, &p.direct_call);
}

spec fn add_facts_c_part(p: Program, t: Truth) -> bool {
    ||| t.rel == clauses::VIRTUAL_CALL && listed(p.virtual_call@, t.cells)
    ||| t.rel == clauses::ACTUAL_ARG && listed(p.actual_arg@, t.cells)
    ||| t.rel == clauses::BIND_RET && listed(p.bind_ret@, t.cells)
    ||| t.rel == clauses::FORMAL && listed(p.formal@, t.cells)
    ||| t.rel == clauses::RET && listed(p.ret@, t.cells)
    ||| t.rel == clauses::DIRECT_SUBTYPE && listed(p.direct_subtype@, t.cells)
    ||| t.rel == clauses::LOOKUP && listed(p.lookup@, t.cells)
    ||| t.rel == clauses::PATHS && listed(p.paths@, t.cells)
}

fn add_facts_c(s: &mut Stock, p: &Program)
    requires
        old(s).wf(),
    ensures
        final(s).wf(),
        forall|t: Truth| #[trigger]
            final(s)@.contains(t) <==> old(s)@.contains(t) || add_facts_c_part(*p, t),
{
    add_list(s, clauses::VIRTUAL_CALL, &p.virtual_call);
    add_list(s, clauses::ACTUAL_ARG, &p.actual_arg);
    add_list(s, clauses::BIND_RET, &p.bind_ret);
    add_list(s, clauses::FORMAL, &p.formal);
    add_list(s, clauses::RET, &p.ret);
    add_list(s, clauses::DIRECT_SUBTYPE, &p.direct_subtype);
    add_list(s, clauses::LOOKUP, &p.lookup);
    add_list(s, clauses::PATHS, &p.paths);
}

spec fn add_held_a_part(h: &HybridAnalysis, t: Truth) -> bool {
    ||| t.rel == clauses::SIG_TARGET && listed(h.sig_target@, t.cells)
    ||| t.rel == clauses::SIG_SIZE && listed(h.sig_size@, t.cells)
    ||| t.rel == clauses::MONO_TARGET && listed(h.mono_target@, t.cells)
    ||| t.rel == clauses::EFF_DIRECT && listed(h.eff_direct@, t.cells)
    ||| t.rel == clauses::CRITICAL && listed(h.critical@, t.cells)
    ||| t.rel == clauses::KNOWN_PROC && listed(h.known_proc@, t.cells)
    ||| t.rel == clauses::IS_CALLED && listed(h.is_called@, t.cells)
    ||| t.rel == clauses::UNCALLED && listed(h.uncalled@, t.cells)
    ||| t.rel == clauses::EDGE && listed(h.edge@, t.cells)
    ||| t.rel == clauses::POINTS && listed(h.points@, t.cells)
}

fn add_held_a(s: &mut Stock, h: &HybridAnalysis)
    requires
        old(s).wf(),
    ensures
        final(s).wf(),
        forall|t: Truth| #[trigger]
            final(s)@.contains(t) <==> old(s)@.contains(t) || add_held_a_part(h, t),
{
    add_list(s, clauses::SIG_TARGET, &h.sig_target);
    add_list(s, clauses::SIG_SIZE, &h.sig_size);
    add_list(s, clauses::MONO_TARGET, &h.mono_target);
    add_list(s, clauses::EFF_DIRECT, &h.eff_direct);
    add_list(s, clauses::CRITICAL, &h.critical);
    add_list(s, clauses::KNOWN_PROC, &h.known_proc);
    add_list(s, clauses::IS_CALLED, &h.is_called);
    add_list(s, clauses::UNCALLED, &h.uncalled);
    add_list(s, clauses::EDGE, &h.edge);
    add_list(s, clauses::POINTS, &h.points);
}

spec fn add_held_b_part(h: &HybridAnalysis, t: Truth) -> bool {
    ||| t.rel == clauses::PATH_USED && listed(h.path_used@, t.cells)
    ||| t.rel == clauses::CRIT_ORIGIN && listed(h.crit_origin@, t.cells)
    ||| t.rel == clauses::PENDING && listed(h.pending@, t.cells)
    ||| t.rel == clauses::CAN_PROPAGATE && listed(h.can_propagate@, t.cells)
    ||| t.rel == clauses::CARRIES && listed(h.carries@, t.cells)
    ||| t.rel == clauses::DECISIVE_VAR && listed(h.decisive_var@, t.cells)
    ||| t.rel == clauses::SLOT_FROM_FORMAL && listed(h.slot_from_formal@, t.cells)
    ||| t.rel == clauses::WILL_PROPAGATE && listed(h.will_propagate@, t.cells)
    ||| t.rel == clauses::STUCK && listed(h.stuck@, t.cells)
    ||| t.rel == clauses::CRIT_OPERAND && listed(h.crit_operand@, t.cells)
}

fn add_held_b(s: &mut Stock, h: &HybridAnalysis)
    requires
        old(s).wf(),
    ensures
        final(s).wf(),
        forall|t: Truth| #[trigger]
            final(s)@.contains(t) <==> old(s)@.contains(t) || add_held_b_part(h, t),
{
    add_list(s, clauses::PATH_USED, &h.path_used);
    add_list(s, clauses::CRIT_ORIGIN, &h.crit_origin);
    add_list(s, clauses::PENDING, &h.pending);
    add_list(s, clauses::CAN_PROPAGATE, &h.can_propagate);
    add_list(s, clauses::CARRIES, &h.carries);
    add_list(s, clauses::DECISIVE_VAR, &h.decisive_var);
    add_list(s, clauses::SLOT_FROM_FORMAL, &h.slot_from_formal);
    add_list(s, clauses::WILL_PROPAGATE, &h.will_propagate);
    add_list(s, clauses::STUCK, &h.stuck);
    add_list(s, clauses::CRIT_OPERAND, &h.crit_operand);
}

spec fn add_held_c_part(h: &HybridAnalysis, t: Truth) -> bool {
    ||| t.rel == clauses::CALL_CRIT && listed(h.call_crit@, t.cells)
    ||| t.rel == clauses::LOAD_CRIT && listed(h.load_crit@, t.cells)
    ||| t.rel == clauses::STORE_CRIT && listed(h.store_crit@, t.cells)
    ||| t.rel == clauses::INDEX_CRIT && listed(h.index_crit@, t.cells)
    ||| t.rel == clauses::DECISIVE_SLOT && listed(h.decisive_slot@, t.cells)
    ||| t.rel == clauses::CRIT_SIG && listed(h.crit_sig@, t.cells)
    ||| t.rel == clauses::FREE_ROOT && listed(h.free_root@, t.cells)
    ||| t.rel == clauses::PUB_ROOT && listed(h.pub_root@, t.cells)
    ||| t.rel == clauses::PUB_POINTS && listed(h.pub_points@, t.cells)
    ||| t.rel == clauses::ROOT_MAP && listed(h.root_map@, t.cells)
}

fn add_held_c(s: &mut Stock, h: &HybridAnalysis)
    requires
        old(s).wf(),
    ensures
        final(s).wf(),
        forall|t: Truth| #[trigger]
            final(s)@.contains(t) <==> old(s)@.contains(t) || add_held_c_part(h, t),
{
    add_list(s, clauses::CALL_CRIT, &h.call_crit);
    add_list(s, clauses::LOAD_CRIT, &h.load_crit);
    add_list(s, clauses::STORE_CRIT, &h.store_crit);
    add_list(s, clauses::INDEX_CRIT, &h.index_crit);
    add_list(s, clauses::DECISIVE_SLOT, &h.decisive_slot);
    add_list(s, clauses::CRIT_SIG, &h.crit_sig);
    add_list(s, clauses::FREE_ROOT, &h.free_root);
    add_list(s, clauses::PUB_ROOT, &h.pub_root);
    add_list(s, clauses::PUB_POINTS, &h.pub_points);
    add_list(s, clauses::ROOT_MAP, &h.root_map);
}

spec fn add_held_d_part(h: &HybridAnalysis, t: Truth) -> bool {
    ||| t.rel == clauses::BLOCKED && listed(h.blocked@, t.cells)
    ||| t.rel == clauses::TOP && listed(h.top@, t.cells)
    ||| t.rel == clauses::RESOLVE && listed(h.resolve@, t.cells)
    ||| t.rel == clauses::INDEX_UNDECIDABLE && listed(h.index_undecidable@, t.cells)
    ||| t.rel == clauses::INDEX_ACC && listed(h.index_acc@, t.cells)
    ||| t.rel == clauses::ADEQUATE && listed(h.adequate@, t.cells)
    ||| t.rel == clauses::SETTLED && listed(h.settled@, t.cells)
}

fn add_held_d(s: &mut Stock, h: &HybridAnalysis)
    requires
        old(s).wf(),
    ensures
        final(s).wf(),
        forall|t: Truth| #[trigger]
            final(s)@.contains(t) <==> old(s)@.contains(t) || add_held_d_part(h, t),
{
    add_list(s, clauses::BLOCKED, &h.blocked);
    add_list(s, clauses::TOP, &h.top);
    add_list(s, clauses::RESOLVE, &h.resolve);
    add_list(s, clauses::INDEX_UNDECIDABLE, &h.index_undecidable);
    add_list(s, clauses::INDEX_ACC, &h.index_acc);
    add_list(s, clauses::ADEQUATE, &h.adequate);
    add_list(s, clauses::SETTLED, &h.settled);
}

// ---------------------------------------------------------------------------
// Reading back
// ---------------------------------------------------------------------------

/// One of the first `n` rows.
spec fn among_rows(v: Seq<Vec<Cell>>, n: int, cells: Seq<Thing>) -> bool {
    exists|k: int| 0 <= k < n && things((#[trigger] v[k])@) == cells
}

fn pick<R: Record>(s: &Stock, rel: usize) -> (r: Vec<R>)
    requires
        s.wf(),
        rel < RELS,
    ensures
        exact(r@, picked::<R>(s@, rel)),
{
    let v = &s.rows[rel];
    let mut r: Vec<R> = Vec::new();
    let mut i: usize = 0;
    while i < v.len()
        invariant
            i <= v@.len(),
            s.wf(),
            rel < RELS,
            v@ == s.rows@[rel as int]@,
            forall|j: int|
                0 <= j < r@.len() ==> among_rows(v@, i as int, R::row((#[trigger] r@[j])@)),
            forall|k: int, x: R::V|
                0 <= k < i && things((#[trigger] v@[k])@) == #[trigger] R::row(x) ==> tuples(
                    r@,
                ).contains(x),
            distinct(r@),
        decreases v@.len() - i,
    {
        let ghost was = r@;
        match R::read(&v[i]) {
            Some(x) => {
                let ghost y = x@;
                r.push(x);
                proof {
                    assert(r@.drop_last() =~= was);
                    assert(distinct_rows(s.rows@[rel as int]@));
                    lemma_picked(v@, i as int, was, r@, y);
                }
            },
            None => {},
        }
        proof {
            assert forall|j: int| 0 <= j < r@.len() implies among_rows(
                v@,
                i + 1,
                R::row((#[trigger] r@[j])@),
            ) by {
                if j < was.len() {
                    assert(r@[j] == was[j]);
                    assert(among_rows(v@, i as int, R::row(was[j]@)));
                    let k = choose|k: int|
                        0 <= k < i && things((#[trigger] v@[k])@) == R::row(was[j]@);
                    assert(things(v@[k]@) == R::row(r@[j]@));
                } else {
                    assert(things(v@[i as int]@) == R::row(r@[j]@));
                }
            }
            assert forall|k: int, x: R::V|
                0 <= k < i + 1 && things((#[trigger] v@[k])@) == #[trigger] R::row(x)
                    implies tuples(r@).contains(x) by {
                if k < i {
                    assert(tuples(was).contains(x));
                    let j = choose|j: int| 0 <= j < was.len() && (#[trigger] was[j])@ == x;
                    assert(r@[j]@ == x);
                } else {
                    let j = r@.len() - 1;
                    assert(things(v@[i as int]@) == R::row(r@[j]@));
                    R::lemma_row(x, r@[j]@);
                    assert(r@[j]@ == x);
                }
            }
        }
        i += 1;
    }
    proof {
        let set = picked::<R>(s@, rel);
        assert forall|x: R::V| tuples(r@).contains(x) implies #[trigger] set.contains(x) by {
            let j = choose|j: int| 0 <= j < r@.len() && (#[trigger] r@[j])@ == x;
            assert(among_rows(v@, i as int, R::row(r@[j]@)));
            let k = choose|k: int|
                0 <= k < i && things((#[trigger] v@[k])@) == R::row(r@[j]@);
            assert(things(v@[k]@) == R::row(x));
            assert(row_in(v@, R::row(x)));
        }
        assert forall|x: R::V| set.contains(x) implies #[trigger] tuples(r@).contains(x) by {
            assert(row_in(v@, R::row(x)));
            let k = choose|k: int| 0 <= k < v@.len() && things((#[trigger] v@[k])@) == R::row(x);
            assert(things(v@[k]@) == R::row(x));
        }
        assert(tuples(r@) =~= set);
    }
    r
}

/// A row that was not read before gives a tuple that was not there.
proof fn lemma_picked<R: Record>(
    v: Seq<Vec<Cell>>,
    i: int,
    was: Seq<R>,
    now: Seq<R>,
    y: R::V,
)
    requires
        0 <= i < v.len(),
        distinct_rows(v),
        now.len() == was.len() + 1,
        now.drop_last() == was,
        now.last()@ == y,
        things(v[i]@) == R::row(y),
        distinct(was),
        forall|j: int|
            0 <= j < was.len() ==> among_rows(v, i, R::row((#[trigger] was[j])@)),
    ensures
        distinct(now),
{
    assert forall|a: int, b: int| 0 <= a < b < now.len() implies (#[trigger] now[a])@ != (
    #[trigger] now[b])@ by {
        assert(now[a] == was[a]);
        if b < was.len() {
            assert(now[b] == was[b]);
        } else {
            assert(among_rows(v, i, R::row(was[a]@)));
            let k = choose|k: int| 0 <= k < i && things((#[trigger] v[k])@) == R::row(was[a]@);
            assert(things(v[k]@) != things(v[i]@));
        }
    }
}

/// The same tuples again.
pub fn copy_tuples<R: Record>(v: &Vec<R>) -> (r: Vec<R>)
    ensures
        r@.len() == v@.len(),
        forall|i: int| 0 <= i < v@.len() ==> (#[trigger] r@[i])@ == v@[i]@,
        tuples(r@) == tuples(v@),
{
    let mut r: Vec<R> = Vec::new();
    let mut i: usize = 0;
    while i < v.len()
        invariant
            i <= v@.len(),
            r@.len() == i,
            forall|j: int| 0 <= j < i ==> (#[trigger] r@[j])@ == v@[j]@,
        decreases v@.len() - i,
    {
        let row = v[i].cells();
        match R::read(&row) {
            Some(x) => {
                proof {
                    R::lemma_row(x@, v@[i as int]@);
                }
                r.push(x);
            },
            None => {
                proof {
                    assert(things(row@) == R::row(v@[i as int]@));
                    assert(false);
                }
            },
        }
        i += 1;
    }
    proof {
        assert forall|x: R::V| tuples(v@).contains(x) implies #[trigger] tuples(r@).contains(x) by {
            let j = choose|j: int| 0 <= j < v@.len() && (#[trigger] v@[j])@ == x;
            assert(r@[j]@ == x);
        }
        assert forall|x: R::V| #[trigger] tuples(r@).contains(x) implies tuples(v@).contains(x) by {
            let j = choose|j: int| 0 <= j < r@.len() && (#[trigger] r@[j])@ == x;
            assert(v@[j]@ == x);
        }
        assert(tuples(r@) =~= tuples(v@));
    }
    r
}

/// Whether every tuple of a list is in another.
fn all_in<R: Record>(a: &Vec<R>, b: &Vec<R>) -> (r: bool)
    ensures
        r == tuples(a@).subset_of(tuples(b@)),
{
    let mut rows: Vec<Vec<Cell>> = Vec::new();
    let mut i: usize = 0;
    while i < b.len()
        invariant
            i <= b@.len(),
            rows@.len() == i,
            forall|j: int| 0 <= j < i ==> things((#[trigger] rows@[j])@) == R::row(b@[j]@),
        decreases b@.len() - i,
    {
        rows.push(b[i].cells());
        i += 1;
    }
    i = 0;
    while i < a.len()
        invariant
            i <= a@.len(),
            rows@.len() == b@.len(),
            forall|j: int| 0 <= j < rows@.len()
                ==> things((#[trigger] rows@[j])@) == R::row(b@[j]@),
            forall|j: int| 0 <= j < i ==> tuples(b@).contains((#[trigger] a@[j])@),
        decreases a@.len() - i,
    {
        let row = a[i].cells();
        let ghost x = a@[i as int]@;
        let mut found = false;
        let mut j: usize = 0;
        while j < rows.len()
            invariant
                j <= rows@.len(),
                rows@.len() == b@.len(),
                i < a@.len(),
                x == a@[i as int]@,
                things(row@) == R::row(x),
                forall|k: int|
                    0 <= k < rows@.len() ==> things((#[trigger] rows@[k])@) == R::row(b@[k]@),
                found ==> tuples(b@).contains(x),
                !found ==> forall|k: int| 0 <= k < j ==> (#[trigger] b@[k])@ != x,
            decreases rows@.len() - j,
        {
            if same_rows(&row, &rows[j]) {
                found = true;
                proof {
                    R::lemma_row(x, b@[j as int]@);
                    assert(b@[j as int]@ == x);
                }
            }
            j += 1;
        }
        if !found {
            proof {
                assert(tuples(a@).contains(x));
                assert(!tuples(b@).contains(x));
            }
            return false;
        }
        i += 1;
    }
    true
}

/// Whether every answer of one analysis is one of another.
pub fn is_within(h: &HybridAnalysis, other: &HybridAnalysis) -> (r: bool)
    ensures
        r == h.within(other),
{
    all_in(&h.sig_target, &other.sig_target)
        && all_in(&h.sig_size, &other.sig_size)
        && all_in(&h.mono_target, &other.mono_target)
        && all_in(&h.eff_direct, &other.eff_direct)
        && all_in(&h.critical, &other.critical)
        && all_in(&h.known_proc, &other.known_proc)
        && all_in(&h.is_called, &other.is_called)
        && all_in(&h.uncalled, &other.uncalled)
        && all_in(&h.path_used, &other.path_used)
        && all_in(&h.crit_origin, &other.crit_origin)
        && all_in(&h.can_propagate, &other.can_propagate)
        && all_in(&h.carries, &other.carries)
        && all_in(&h.decisive_var, &other.decisive_var)
        && all_in(&h.slot_from_formal, &other.slot_from_formal)
        && all_in(&h.will_propagate, &other.will_propagate)
        && all_in(&h.stuck, &other.stuck)
        && all_in(&h.crit_operand, &other.crit_operand)
        && all_in(&h.call_crit, &other.call_crit)
        && all_in(&h.load_crit, &other.load_crit)
        && all_in(&h.store_crit, &other.store_crit)
        && all_in(&h.index_crit, &other.index_crit)
        && all_in(&h.decisive_slot, &other.decisive_slot)
        && all_in(&h.crit_sig, &other.crit_sig)
        && all_in(&h.free_root, &other.free_root)
        && all_in(&h.pub_root, &other.pub_root)
        && all_in(&h.pub_points, &other.pub_points)
        && all_in(&h.root_map, &other.root_map)
        && all_in(&h.blocked, &other.blocked)
        && all_in(&h.top, &other.top)
        && all_in(&h.resolve, &other.resolve)
        && all_in(&h.index_undecidable, &other.index_undecidable)
        && all_in(&h.index_acc, &other.index_acc)
        && all_in(&h.adequate, &other.adequate)
        && all_in(&h.settled, &other.settled)
}

// ---------------------------------------------------------------------------
// The run
// ---------------------------------------------------------------------------

/// Close a store under one group of rules after the other.
fn settle(start: Stock) -> (db: Stock)
    requires
        start.wf(),
    ensures
        db.wf(),
        settles(groups(), start@, db@),
{
    let ghost given = start@;
    let mut db = start;
    let mut k: usize = 0;
    proof {
        assert(groups().take(0).len() == 0);
        assert(settles(groups().take(0), given, db@));
    }
    while k < 5
        invariant
            k <= 5,
            db.wf(),
            settles(groups().take(k as int), given, db@),
        decreases 5 - k,
    {
        let rules = group(k);
        let next = close(&rules, &db);
        proof {
            let all = groups().take(k + 1);
            assert(all.drop_last() =~= groups().take(k as int));
            assert(all.last() == groups()[k as int]);
            assert(least(all.last(), db@, next@));
            assert(settles(all, given, next@));
        }
        db = next;
        k += 1;
    }
    proof {
        assert(groups().take(5) =~= groups());
    }
    db
}

impl HybridAnalysis {
    /// Derive everything that follows from the facts and from whatever the relations
    /// hold already.
    pub fn resume(&mut self)
        ensures
            final(self).program == old(self).program,
            final(self).k_limit == old(self).k_limit,
            resumed(old(self), final(self)),
    {
        let mut s = Stock::new();
        let limit: Vec<(usize,)> = vec![(self.k_limit,)];
        add_facts_a(&mut s, &self.program);
        add_facts_b(&mut s, &self.program);
        add_facts_c(&mut s, &self.program);
        add_held_a(&mut s, self);
        add_held_b(&mut s, self);
        add_held_c(&mut s, self);
        add_held_d(&mut s, self);
        add_list(&mut s, clauses::K_LIMIT, &limit);
        proof {
            assert forall|t: Truth| listed(limit@, t.cells) <==> t.cells == seq![
                Thing::Num(self.k_limit),
            ] by {
                assert(<(usize,) as Record>::row(limit@[0]@) =~= seq![Thing::Num(self.k_limit)]);
            }
            assert(s@ =~= given(self));
        }
        let db = settle(s);
        let ghost m = db@;
        self.sig_target = pick(&db, clauses::SIG_TARGET);
        self.sig_size = pick(&db, clauses::SIG_SIZE);
        self.mono_target = pick(&db, clauses::MONO_TARGET);
        self.eff_direct = pick(&db, clauses::EFF_DIRECT);
        self.critical = pick(&db, clauses::CRITICAL);
        self.known_proc = pick(&db, clauses::KNOWN_PROC);
        self.is_called = pick(&db, clauses::IS_CALLED);
        self.uncalled = pick(&db, clauses::UNCALLED);
        self.edge = pick(&db, clauses::EDGE);
        self.points = pick(&db, clauses::POINTS);
        self.path_used = pick(&db, clauses::PATH_USED);
        self.crit_origin = pick(&db, clauses::CRIT_ORIGIN);
        self.pending = pick(&db, clauses::PENDING);
        self.can_propagate = pick(&db, clauses::CAN_PROPAGATE);
        self.carries = pick(&db, clauses::CARRIES);
        self.decisive_var = pick(&db, clauses::DECISIVE_VAR);
        self.slot_from_formal = pick(&db, clauses::SLOT_FROM_FORMAL);
        self.will_propagate = pick(&db, clauses::WILL_PROPAGATE);
        self.stuck = pick(&db, clauses::STUCK);
        self.crit_operand = pick(&db, clauses::CRIT_OPERAND);
        self.call_crit = pick(&db, clauses::CALL_CRIT);
        self.load_crit = pick(&db, clauses::LOAD_CRIT);
        self.store_crit = pick(&db, clauses::STORE_CRIT);
        self.index_crit = pick(&db, clauses::INDEX_CRIT);
        self.decisive_slot = pick(&db, clauses::DECISIVE_SLOT);
        self.crit_sig = pick(&db, clauses::CRIT_SIG);
        self.free_root = pick(&db, clauses::FREE_ROOT);
        self.pub_root = pick(&db, clauses::PUB_ROOT);
        self.pub_points = pick(&db, clauses::PUB_POINTS);
        self.root_map = pick(&db, clauses::ROOT_MAP);
        self.blocked = pick(&db, clauses::BLOCKED);
        self.top = pick(&db, clauses::TOP);
        self.resolve = pick(&db, clauses::RESOLVE);
        self.index_undecidable = pick(&db, clauses::INDEX_UNDECIDABLE);
        self.index_acc = pick(&db, clauses::INDEX_ACC);
        self.adequate = pick(&db, clauses::ADEQUATE);
        self.settled = pick(&db, clauses::SETTLED);
        proof {
            assert(lists_model(self, m));
        }
    }
}

} // verus!
