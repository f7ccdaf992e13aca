//! Hybrid Inlining for a compositional pointer analysis.
//!
//! The analysis derives every procedure's hybrid summary, every pending critical
//! statement and every resolution as the least model of one set of rules. There
//! is no driver around it: [`run_hybrid`] copies the facts, runs the rules and
//! hands the relations back.
//!
//! # Why one least model is enough
//!
//! Resolving an *adequate* critical statement adds constraints, which grow the
//! points-to sets that adequacy is a negation over. But adequacy only schedules:
//! what gets dispatched is decided per allocation, each of which justifies the one
//! callee it selects, and firing that as soon as the allocation appears is
//! monotone. What remains of the negations is stratified. Below the fixpoint
//! stands `will_propagate`, which the syntax alone settles; above it stand
//! `adequate` and `settled`, which only classify.
//!
//! Critical statements are not summarized. Each pending instance contributes
//! placeholder nodes, one for each operand and one for the result, which ordinary
//! constraints wire to the statement's operands and result. Publishing a summary
//! eliminates locals and keeps the placeholders.
use vstd::prelude::*;

use crate::access_path::{AccessPath, Accessor, Base, CritId, Instance, Path, PtVal, Root, Value};
use crate::codes::{Names, Store};
use crate::derived::{
    called_set, critical_set, decisive_set, eff_set, known_set, mono_set, target_set, uncalled_set,
    Derived,
};
use crate::engine::Engine;
use crate::codes::Codes;
use crate::facts::Facts;
use crate::marks::Marks;
use crate::report::held_anywhere;
use crate::table::Table;
use crate::tuples::{means_held, means_inst};
use crate::ir::{ArgIdx, Edb, Name, Proc, Program, Sig, Stmt, Var};
use crate::path_bound;
use crate::report::{
    adequate_set, blocked_set, can_propagate_set, crit_origin_set, index_acc_set, resolve_set,
    settled_set, sig_size_set, stuck_set, top_set, undecidable_set, will_set,
};
use crate::roster::{
    crit_sig_set, deciding_set, free_root_set, operand_set, pub_points_set, pub_root_set,
    root_map_set, sort_set, Sort,
};
use crate::laws::law_answers_are_determined;
use crate::resume::{copy_tuples, is_within, resumed};
use crate::rules::{Core, Setting, Syn};
use crate::startup::{bound_table, learn_all, lemma_knows, seed_state, will_table};
use crate::state::State;
use crate::syntax::Draft;
use crate::tuples::{distinct, exact, single, tuples};
pub use crate::query::{crit_subst, render_dispatch, render_summary};

verus! {

/// The paths that occur, with their procedures and roots.
pub open spec fn used_set(m: Core) -> Set<(Name, Root, Path)> {
    Set::new(|x: (Name, Root, Path)| m.path_used(x.0, x.2) && x.1 == x.2.root)
}

/// Hybrid Inlining over one program: its facts, the k-limit, and every relation of
/// the analysis as a list of its tuples.
///
/// Build one with [`HybridAnalysis::for_program`] and `run()` it, or just call
/// [`run_hybrid`].
pub struct HybridAnalysis {
    /// The facts.
    pub program: Program,
    /// A pending instance may be propagated while its call string is shorter than
    /// this.
    pub k_limit: usize,
    /// The targets of a signature, whatever the receiver type.
    pub sig_target: Vec<(Sig, Proc)>,
    /// How many targets a dispatched signature has.
    pub sig_size: Vec<(Sig, usize)>,
    /// A virtual call with a single target is an ordinary direct call that the front
    /// end did not resolve.
    pub mono_target: Vec<(Stmt, Proc)>,
    /// Callsites whose callee is statically known.
    pub eff_direct: Vec<(Stmt, Proc)>,
    /// Critical statements: virtual calls with several targets, and accesses through a
    /// variable index.
    pub critical: Vec<(Stmt,)>,
    /// Every procedure the facts name, whether or not `procedure` lists it.
    pub known_proc: Vec<(Proc,)>,
    /// Some statement of the program calls the procedure outright.
    pub is_called: Vec<(Proc,)>,
    /// Nothing calls the procedure.
    pub uncalled: Vec<(Proc,)>,
    /// `(p, sup, sub)`: `sup` contains `sub` while `p` is being summarized.
    pub edge: Vec<(Proc, AccessPath, AccessPath)>,
    /// `(p, w, v)`: `v` is in the points-to set of `w`.
    pub points: Vec<(Proc, AccessPath, PtVal)>,
    /// The paths that occur in a procedure, with their roots.
    pub path_used: Vec<(Proc, Base, AccessPath)>,
    /// The instance a critical statement originates where it stands.
    pub crit_origin: Vec<(Proc, Stmt, CritId)>,
    /// The summary of a procedure carries an instance as a placeholder. Nothing
    /// removes a tuple; `settled` tells what is decided.
    pub pending: Vec<(Proc, CritId)>,
    /// The instance may still move into a caller.
    pub can_propagate: Vec<(Proc, CritId)>,
    /// The local definitely holds the value of the formal.
    pub carries: Vec<(Proc, Var, ArgIdx)>,
    /// The deciding operand of a statement as it is spelled.
    pub decisive_var: Vec<(Stmt, Var)>,
    /// The deciding slot of the instance is fed from the formal.
    pub slot_from_formal: Vec<(Proc, CritId, ArgIdx)>,
    /// The instance is definitely blocked here and definitely has somewhere to go.
    pub will_propagate: Vec<(Proc, CritId)>,
    /// The instance has nowhere left to propagate to.
    pub stuck: Vec<(Proc, CritId)>,
    /// The operand positions of the pending instances.
    pub crit_operand: Vec<(CritId, ArgIdx)>,
    /// The pending instances of virtual calls.
    pub call_crit: Vec<(CritId,)>,
    /// The pending instances of loads through a variable index.
    pub load_crit: Vec<(CritId,)>,
    /// The pending instances of stores through a variable index.
    pub store_crit: Vec<(CritId,)>,
    /// The pending instances of accesses through a variable index.
    pub index_crit: Vec<(CritId,)>,
    /// The operand whose points-to set decides the instance.
    pub decisive_slot: Vec<(CritId, ArgIdx)>,
    /// The signature the instance dispatches.
    pub crit_sig: Vec<(CritId, Sig)>,
    /// The roots whose values a caller can still change.
    pub free_root: Vec<(Proc, Base)>,
    /// The vocabulary of the published summary.
    pub pub_root: Vec<(Proc, Base)>,
    /// The half of the published summary that holds concrete values.
    pub pub_points: Vec<(Proc, AccessPath, PtVal)>,
    /// The substitution a callsite induces on the published roots of the callee.
    pub root_map: Vec<(Stmt, Base, Base)>,
    /// Something a caller still controls may reach the operand that decides the
    /// instance.
    pub blocked: Vec<(Proc, CritId)>,
    /// The instance must be summarized for every context, here and now.
    pub top: Vec<(Proc, CritId)>,
    /// A callee the instance may reach.
    pub resolve: Vec<(Proc, CritId, Proc)>,
    /// The index holds a concrete value that is not a constant.
    pub index_undecidable: Vec<(Proc, CritId)>,
    /// An accessor the access resolves to.
    pub index_acc: Vec<(Proc, CritId, Accessor)>,
    /// Nothing a caller still controls reaches the deciding operand.
    pub adequate: Vec<(Proc, CritId)>,
    /// The placeholder defers nothing any more.
    pub settled: Vec<(Proc, CritId)>,
}

impl HybridAnalysis {
    /// The constraints, points-to sets and pending instances it holds.
    pub open spec fn said(&self) -> Core {
        Core {
            edge: tuples(self.edge@),
            points: tuples(self.points@),
            pending: tuples(self.pending@),
        }
    }

    /// What its relations are taken over.
    pub open spec fn setting(&self) -> Setting {
        Setting {
            e: self.program@,
            k: self.k_limit as nat,
            syn: Syn { carries: tuples(self.carries@), slots: tuples(self.slot_from_formal@) },
        }
    }

    /// What the facts settle by themselves.
    pub open spec fn settles_facts(&self) -> bool {
        let e = self.program@;
        &&& exact(self.sig_target@, target_set(e))
        &&& exact(self.sig_size@, sig_size_set(e))
        &&& exact(self.mono_target@, mono_set(e))
        &&& exact(self.eff_direct@, eff_set(e))
        &&& exact(self.critical@, single(critical_set(e)))
        &&& exact(self.known_proc@, single(known_set(e)))
        &&& exact(self.is_called@, single(called_set(e)))
        &&& exact(self.uncalled@, single(uncalled_set(e)))
        &&& exact(self.crit_origin@, crit_origin_set(e))
        &&& exact(self.decisive_var@, decisive_set(e))
    }

    /// The fixpoint, each tuple once.
    pub open spec fn lists_core(&self) -> bool {
        let m = self.said();
        &&& distinct(self.edge@)
        &&& distinct(self.points@)
        &&& exact(self.path_used@, used_set(m))
        &&& distinct(self.pending@)
    }

    /// What the syntax settles, each tuple once.
    pub open spec fn lists_syntax(&self) -> bool {
        &&& distinct(self.carries@)
        &&& distinct(self.slot_from_formal@)
    }

    /// What is said of the pending instances.
    pub open spec fn lists_instances(&self) -> bool {
        let w = self.setting();
        let m = self.said();
        &&& exact(self.crit_operand@, operand_set(w, m))
        &&& exact(self.call_crit@, sort_set(w, m, Sort::Call))
        &&& exact(self.load_crit@, sort_set(w, m, Sort::Load))
        &&& exact(self.store_crit@, sort_set(w, m, Sort::Store))
        &&& exact(self.index_crit@, sort_set(w, m, Sort::Access))
        &&& exact(self.decisive_slot@, deciding_set(w, m))
        &&& exact(self.crit_sig@, crit_sig_set(w, m))
    }

    /// The published roots and where they go.
    pub open spec fn lists_roots(&self) -> bool {
        let w = self.setting();
        let m = self.said();
        &&& exact(self.free_root@, free_root_set(w, m))
        &&& exact(self.pub_root@, pub_root_set(w, m))
        &&& exact(self.pub_points@, pub_points_set(w, m))
        &&& exact(self.root_map@, root_map_set(w, m))
    }

    /// What is said of each holder and instance.
    pub open spec fn lists_decisions(&self) -> bool {
        let w = self.setting();
        let m = self.said();
        &&& exact(self.can_propagate@, can_propagate_set(w, m))
        &&& exact(self.will_propagate@, will_set(w))
        &&& exact(self.stuck@, stuck_set(w, m))
        &&& exact(self.blocked@, blocked_set(w, m))
        &&& exact(self.top@, top_set(w, m))
        &&& exact(self.resolve@, resolve_set(w, m))
        &&& exact(self.index_undecidable@, undecidable_set(w, m))
        &&& exact(self.index_acc@, index_acc_set(w, m))
        &&& exact(self.adequate@, adequate_set(w, m))
        &&& exact(self.settled@, settled_set(w, m))
    }

    /// The relations are those of the least model that holds `seed`.
    pub open spec fn derived_from(&self, seed: Core) -> bool {
        let w = self.setting();
        &&& w.syn.least(w.e, w.k)
        &&& w.least(seed, self.said())
        &&& self.settles_facts()
        &&& self.lists_core()
        &&& self.lists_syntax()
        &&& self.lists_instances()
        &&& self.lists_roots()
        &&& self.lists_decisions()
    }

    /// Nothing has been derived yet.
    pub open spec fn blank(&self) -> bool {
        &&& self.sig_target@.len() == 0
        &&& self.sig_size@.len() == 0
        &&& self.mono_target@.len() == 0
        &&& self.eff_direct@.len() == 0
        &&& self.critical@.len() == 0
        &&& self.known_proc@.len() == 0
        &&& self.is_called@.len() == 0
        &&& self.uncalled@.len() == 0
        &&& self.edge@.len() == 0
        &&& self.points@.len() == 0
        &&& self.path_used@.len() == 0
        &&& self.crit_origin@.len() == 0
        &&& self.pending@.len() == 0
        &&& self.can_propagate@.len() == 0
        &&& self.carries@.len() == 0
        &&& self.decisive_var@.len() == 0
        &&& self.slot_from_formal@.len() == 0
        &&& self.will_propagate@.len() == 0
        &&& self.stuck@.len() == 0
        &&& self.crit_operand@.len() == 0
        &&& self.call_crit@.len() == 0
        &&& self.load_crit@.len() == 0
        &&& self.store_crit@.len() == 0
        &&& self.index_crit@.len() == 0
        &&& self.decisive_slot@.len() == 0
        &&& self.crit_sig@.len() == 0
        &&& self.free_root@.len() == 0
        &&& self.pub_root@.len() == 0
        &&& self.pub_points@.len() == 0
        &&& self.root_map@.len() == 0
        &&& self.blocked@.len() == 0
        &&& self.top@.len() == 0
        &&& self.resolve@.len() == 0
        &&& self.index_undecidable@.len() == 0
        &&& self.index_acc@.len() == 0
        &&& self.adequate@.len() == 0
        &&& self.settled@.len() == 0
    }

    /// Every answer is one of `other`.
    pub open spec fn within(&self, other: &HybridAnalysis) -> bool {
        &&& tuples(self.sig_target@).subset_of(tuples(other.sig_target@))
        &&& tuples(self.sig_size@).subset_of(tuples(other.sig_size@))
        &&& tuples(self.mono_target@).subset_of(tuples(other.mono_target@))
        &&& tuples(self.eff_direct@).subset_of(tuples(other.eff_direct@))
        &&& tuples(self.critical@).subset_of(tuples(other.critical@))
        &&& tuples(self.known_proc@).subset_of(tuples(other.known_proc@))
        &&& tuples(self.is_called@).subset_of(tuples(other.is_called@))
        &&& tuples(self.uncalled@).subset_of(tuples(other.uncalled@))
        &&& tuples(self.path_used@).subset_of(tuples(other.path_used@))
        &&& tuples(self.crit_origin@).subset_of(tuples(other.crit_origin@))
        &&& tuples(self.can_propagate@).subset_of(tuples(other.can_propagate@))
        &&& tuples(self.carries@).subset_of(tuples(other.carries@))
        &&& tuples(self.decisive_var@).subset_of(tuples(other.decisive_var@))
        &&& tuples(self.slot_from_formal@).subset_of(tuples(other.slot_from_formal@))
        &&& tuples(self.will_propagate@).subset_of(tuples(other.will_propagate@))
        &&& tuples(self.stuck@).subset_of(tuples(other.stuck@))
        &&& tuples(self.crit_operand@).subset_of(tuples(other.crit_operand@))
        &&& tuples(self.call_crit@).subset_of(tuples(other.call_crit@))
        &&& tuples(self.load_crit@).subset_of(tuples(other.load_crit@))
        &&& tuples(self.store_crit@).subset_of(tuples(other.store_crit@))
        &&& tuples(self.index_crit@).subset_of(tuples(other.index_crit@))
        &&& tuples(self.decisive_slot@).subset_of(tuples(other.decisive_slot@))
        &&& tuples(self.crit_sig@).subset_of(tuples(other.crit_sig@))
        &&& tuples(self.free_root@).subset_of(tuples(other.free_root@))
        &&& tuples(self.pub_root@).subset_of(tuples(other.pub_root@))
        &&& tuples(self.pub_points@).subset_of(tuples(other.pub_points@))
        &&& tuples(self.root_map@).subset_of(tuples(other.root_map@))
        &&& tuples(self.blocked@).subset_of(tuples(other.blocked@))
        &&& tuples(self.top@).subset_of(tuples(other.top@))
        &&& tuples(self.resolve@).subset_of(tuples(other.resolve@))
        &&& tuples(self.index_undecidable@).subset_of(tuples(other.index_undecidable@))
        &&& tuples(self.index_acc@).subset_of(tuples(other.index_acc@))
        &&& tuples(self.adequate@).subset_of(tuples(other.adequate@))
        &&& tuples(self.settled@).subset_of(tuples(other.settled@))
    }

    /// The answers it holds follow from its facts and its fixpoint.
    pub open spec fn answers_follow(&self) -> bool {
        exists|after: HybridAnalysis|
            after.program@ == self.program@ && after.k_limit == self.k_limit
                && #[trigger] after.derived_from(self.said()) && self.within(&after)
    }

    /// Nothing is held but what the fixpoint grows.
    pub open spec fn unanswered(&self) -> bool {
        &&& self.sig_target@.len() == 0
        &&& self.sig_size@.len() == 0
        &&& self.mono_target@.len() == 0
        &&& self.eff_direct@.len() == 0
        &&& self.critical@.len() == 0
        &&& self.known_proc@.len() == 0
        &&& self.is_called@.len() == 0
        &&& self.uncalled@.len() == 0
        &&& self.path_used@.len() == 0
        &&& self.crit_origin@.len() == 0
        &&& self.can_propagate@.len() == 0
        &&& self.carries@.len() == 0
        &&& self.decisive_var@.len() == 0
        &&& self.slot_from_formal@.len() == 0
        &&& self.will_propagate@.len() == 0
        &&& self.stuck@.len() == 0
        &&& self.crit_operand@.len() == 0
        &&& self.call_crit@.len() == 0
        &&& self.load_crit@.len() == 0
        &&& self.store_crit@.len() == 0
        &&& self.index_crit@.len() == 0
        &&& self.decisive_slot@.len() == 0
        &&& self.crit_sig@.len() == 0
        &&& self.free_root@.len() == 0
        &&& self.pub_root@.len() == 0
        &&& self.pub_points@.len() == 0
        &&& self.root_map@.len() == 0
        &&& self.blocked@.len() == 0
        &&& self.top@.len() == 0
        &&& self.resolve@.len() == 0
        &&& self.index_undecidable@.len() == 0
        &&& self.index_acc@.len() == 0
        &&& self.adequate@.len() == 0
        &&& self.settled@.len() == 0
    }

    fn is_unanswered(&self) -> (r: bool)
        ensures
            r == self.unanswered(),
    {
        self.sig_target.len() == 0
            && self.sig_size.len() == 0
            && self.mono_target.len() == 0
            && self.eff_direct.len() == 0
            && self.critical.len() == 0
            && self.known_proc.len() == 0
            && self.is_called.len() == 0
            && self.uncalled.len() == 0
            && self.path_used.len() == 0
            && self.crit_origin.len() == 0
            && self.can_propagate.len() == 0
            && self.carries.len() == 0
            && self.decisive_var.len() == 0
            && self.slot_from_formal.len() == 0
            && self.will_propagate.len() == 0
            && self.stuck.len() == 0
            && self.crit_operand.len() == 0
            && self.call_crit.len() == 0
            && self.load_crit.len() == 0
            && self.store_crit.len() == 0
            && self.index_crit.len() == 0
            && self.decisive_slot.len() == 0
            && self.crit_sig.len() == 0
            && self.free_root.len() == 0
            && self.pub_root.len() == 0
            && self.pub_points.len() == 0
            && self.root_map.len() == 0
            && self.blocked.len() == 0
            && self.top.len() == 0
            && self.resolve.len() == 0
            && self.index_undecidable.len() == 0
            && self.index_acc.len() == 0
            && self.adequate.len() == 0
            && self.settled.len() == 0
    }

    /// Every relation empty.
    fn empty(program: Program, k: usize) -> (r: Self)
        ensures
            r.program == program,
            r.k_limit == k,
            r.blank(),
    {
        HybridAnalysis {
            program,
            k_limit: k,
            sig_target: Vec::new(),
            sig_size: Vec::new(),
            mono_target: Vec::new(),
            eff_direct: Vec::new(),
            critical: Vec::new(),
            known_proc: Vec::new(),
            is_called: Vec::new(),
            uncalled: Vec::new(),
            edge: Vec::new(),
            points: Vec::new(),
            path_used: Vec::new(),
            crit_origin: Vec::new(),
            pending: Vec::new(),
            can_propagate: Vec::new(),
            carries: Vec::new(),
            decisive_var: Vec::new(),
            slot_from_formal: Vec::new(),
            will_propagate: Vec::new(),
            stuck: Vec::new(),
            crit_operand: Vec::new(),
            call_crit: Vec::new(),
            load_crit: Vec::new(),
            store_crit: Vec::new(),
            index_crit: Vec::new(),
            decisive_slot: Vec::new(),
            crit_sig: Vec::new(),
            free_root: Vec::new(),
            pub_root: Vec::new(),
            pub_points: Vec::new(),
            root_map: Vec::new(),
            blocked: Vec::new(),
            top: Vec::new(),
            resolve: Vec::new(),
            index_undecidable: Vec::new(),
            index_acc: Vec::new(),
            adequate: Vec::new(),
            settled: Vec::new(),
        }
    }

    /// The analysis over `prog` with k-limit `k`, ready to `run()`.
    ///
    /// The facts are copied verbatim but for `paths`, which lists the bound in order:
    /// the program's own, or the one derived from its syntax where it names none.
    pub fn for_program(prog: &Program, k: usize) -> (r: Self)
        ensures
            r.program.repeats_facts(prog),
            path_bound::lists(r.program.paths@, path_bound::chosen(*prog)),
            r.program@ == (Edb { paths: path_bound::chosen(*prog), ..prog@ }),
            r.k_limit == k,
            r.blank(),
    {
        let list = path_bound::for_program(prog);
        let paths = path_bound::as_relation(&list);
        let mut program = prog.clone();
        program.paths = paths;
        Self::empty(program, k)
    }

    /// Number everything and run the rules.
    fn solve_program(&self) -> (r: (Engine, State, Vec<(Proc, Var, ArgIdx)>, Vec<
        (Proc, CritId, ArgIdx),
    >, Ghost<Setting>))
        ensures
            ({
                let w = r.4@;
                &&& w.e == self.program@
                &&& w.k == self.k_limit
                &&& exact(r.2@, w.syn.carries)
                &&& exact(r.3@, w.syn.slots)
                &&& w.syn.least(w.e, w.k)
                &&& r.1.wf()
                &&& r.0.ok(r.1.store@, w)
                &&& w.least(self.said(), r.1.said())
            }),
    {
        let k: usize = self.k_limit;
        let ghost e = self.program@;
        let mut names = Names::new();
        learn_all(&mut names, &self.program.paths, &self.edge, &self.points, &self.pending);
        let ghost n0 = names@;
        let facts = Facts::of_program(&mut names, &self.program);
        proof {
            lemma_knows(
                n0,
                names@,
                self.program.paths@,
                self.edge@,
                self.points@,
                self.pending@,
            );
        }
        let derived = Derived::of_facts(&facts, &names, Ghost(e));
        let bound = bound_table(&names, &self.program.paths);
        let store = Store::new(names);
        let ghost c0 = store@;
        let draft = Draft::compute(store, &facts, &derived, k, Ghost(e));
        let ghost w = Setting { e, k: k as nat, syn: draft.said() };
        let will = will_table(&draft, &derived, k, Ghost(w));
        proof {
            draft.lemma_tables();
        }
        let carries = draft.store.list_carried(&draft.carries, Ghost(w.syn.carries));
        let slots = draft.store.list_fed(&draft.slots, Ghost(w.syn.slots));
        let engine = Engine { facts, derived, bound, will, k };
        let ghost c1 = draft.store@;
        let start = seed_state(draft.store, &self.edge, &self.points, &self.pending);
        proof {
            assert(engine.ok(c1, w));
            engine.lemma_grow(c1, start.store@, w);
        }
        let st = engine.solve(start, Ghost(w), Ghost(self.said()));
        (engine, st, carries, slots, Ghost(w))
    }

    /// Derive everything that follows from the facts and from whatever the relations
    /// hold already.
    ///
    /// A tuple put into any relation before a run counts as a fact. Those of `edge`,
    /// `points` and `pending` seed the fixpoint. Where the others hold nothing that does
    /// not follow anyway (as at first, and after a run), the result is the least model
    /// over the seed; otherwise it is what [`HybridAnalysis::resume`] makes of them all.
    pub fn run(&mut self)
        ensures
            final(self).program == old(self).program,
            final(self).k_limit == old(self).k_limit,
            old(self).unanswered() ==> old(self).answers_follow(),
            old(self).answers_follow() ==> final(self).derived_from(old(self).said()),
            !old(self).answers_follow() ==> resumed(old(self), final(self)),
    {
        let ghost before = *self;
        let ghost seed = self.said();
        if self.is_unanswered() {
            self.derive();
            proof {
                assert(before.within(self));
                assert(self.derived_from(seed));
            }
            return;
        }
        let mut next = Self::empty(self.program.clone(), self.k_limit);
        next.edge = copy_tuples(&self.edge);
        next.points = copy_tuples(&self.points);
        next.pending = copy_tuples(&self.pending);
        proof {
            assert(next.said() =~= seed);
        }
        next.derive();
        if is_within(self, &next) {
            proof {
                assert(next.derived_from(seed));
            }
            self.take(next);
        } else {
            proof {
                if before.answers_follow() {
                    let after = choose|after: HybridAnalysis|
                        after.program@ == before.program@ && after.k_limit == before.k_limit
                            && #[trigger] after.derived_from(seed) && before.within(&after);
                    law_answers_are_determined(&after, &next, seed);
                    assert(before.within(&next));
                }
            }
            self.resume();
        }
    }

    /// Take over the relations of another analysis.
    fn take(&mut self, next: HybridAnalysis)
        ensures
            *final(self) == (HybridAnalysis {
                program: old(self).program,
                k_limit: old(self).k_limit,
                ..next
            }),
    {
        self.sig_target = next.sig_target;
        self.sig_size = next.sig_size;
        self.mono_target = next.mono_target;
        self.eff_direct = next.eff_direct;
        self.critical = next.critical;
        self.known_proc = next.known_proc;
        self.is_called = next.is_called;
        self.uncalled = next.uncalled;
        self.edge = next.edge;
        self.points = next.points;
        self.path_used = next.path_used;
        self.crit_origin = next.crit_origin;
        self.pending = next.pending;
        self.can_propagate = next.can_propagate;
        self.carries = next.carries;
        self.decisive_var = next.decisive_var;
        self.slot_from_formal = next.slot_from_formal;
        self.will_propagate = next.will_propagate;
        self.stuck = next.stuck;
        self.crit_operand = next.crit_operand;
        self.call_crit = next.call_crit;
        self.load_crit = next.load_crit;
        self.store_crit = next.store_crit;
        self.index_crit = next.index_crit;
        self.decisive_slot = next.decisive_slot;
        self.crit_sig = next.crit_sig;
        self.free_root = next.free_root;
        self.pub_root = next.pub_root;
        self.pub_points = next.pub_points;
        self.root_map = next.root_map;
        self.blocked = next.blocked;
        self.top = next.top;
        self.resolve = next.resolve;
        self.index_undecidable = next.index_undecidable;
        self.index_acc = next.index_acc;
        self.adequate = next.adequate;
        self.settled = next.settled;
    }

    /// Run the rules over the facts and the fixpoint.
    fn derive(&mut self)
        ensures
            final(self).program == old(self).program,
            final(self).k_limit == old(self).k_limit,
            final(self).derived_from(old(self).said()),
    {
        let ghost seed = self.said();
        let (engine, solved, carries, slots, Ghost(w)) = self.solve_program();
        let mut st = solved;
        let ghost e = w.e;
        let ghost m = st.said();
        let marks = engine.mark(&st, Ghost(w));
        let insts = st.instances();
        self.report_static(&engine, &st, Ghost(w));
        self.report_instances(&engine, &st, &insts, Ghost(w));
        self.report_decisions(&engine, &st, &marks, Ghost(w));
        self.report_core(&engine, &st, Ghost(w));
        let maps = engine.root_maps(&mut st, &marks, Ghost(w), Ghost(seed));
        let root_map = st.store.list_maps(&maps, Ghost(root_map_set(w, m)));
        self.root_map = root_map;
        self.carries = carries;
        self.slot_from_formal = slots;
        proof {
            assert(self.setting().syn =~= w.syn);
            assert(self.setting() =~= w);
            assert(self.said() =~= m);
        }
    }

    /// The relations below the fixpoint.
    fn report_static(&mut self, engine: &Engine, st: &State, Ghost(w): Ghost<Setting>)
        requires
            st.wf(),
            engine.ok(st.store@, w),
        ensures
            *final(self) == (HybridAnalysis {
                sig_target: final(self).sig_target,
                sig_size: final(self).sig_size,
                mono_target: final(self).mono_target,
                eff_direct: final(self).eff_direct,
                critical: final(self).critical,
                known_proc: final(self).known_proc,
                is_called: final(self).is_called,
                uncalled: final(self).uncalled,
                crit_origin: final(self).crit_origin,
                decisive_var: final(self).decisive_var,
                ..*old(self)
            }),
            exact(final(self).sig_target@, target_set(w.e)),
            exact(final(self).sig_size@, sig_size_set(w.e)),
            exact(final(self).mono_target@, mono_set(w.e)),
            exact(final(self).eff_direct@, eff_set(w.e)),
            exact(final(self).critical@, single(critical_set(w.e))),
            exact(final(self).known_proc@, single(known_set(w.e))),
            exact(final(self).is_called@, single(called_set(w.e))),
            exact(final(self).uncalled@, single(uncalled_set(w.e))),
            exact(final(self).crit_origin@, crit_origin_set(w.e)),
            exact(final(self).decisive_var@, decisive_set(w.e)),
    {
        let ghost e = w.e;
        let ghost c = st.store@;
        let sig_target: Vec<(Sig, Proc)> = st.store.list_two(&engine.derived.targets,
            Ghost(target_set(e)));
        let sig_size: Vec<(Sig, usize)> = engine.list_sig_sizes(st, Ghost(w));
        let mono_target: Vec<(Stmt, Proc)> = st.store.list_two(&engine.derived.mono,
            Ghost(mono_set(e)));
        let eff_direct: Vec<(Stmt, Proc)> = st.store.list_two(&engine.derived.eff,
            Ghost(eff_set(e)));
        let critical: Vec<(Stmt,)> = st.store.list_one(&engine.derived.critical,
            Ghost(critical_set(e)));
        let known_proc: Vec<(Proc,)> = st.store.list_one(&engine.derived.known,
            Ghost(known_set(e)));
        let is_called: Vec<(Proc,)> = st.store.list_one(&engine.derived.called,
            Ghost(called_set(e)));
        let uncalled: Vec<(Proc,)> = st.store.list_one(&engine.derived.uncalled,
            Ghost(uncalled_set(e)));
        let crit_origin: Vec<(Proc, Stmt, CritId)> = engine.list_origins(st, Ghost(w));
        let decisive_var: Vec<(Stmt, Var)> = st.store.list_two(&engine.derived.decisive,
            Ghost(decisive_set(e)));
        self.sig_target = sig_target;
        self.sig_size = sig_size;
        self.mono_target = mono_target;
        self.eff_direct = eff_direct;
        self.critical = critical;
        self.known_proc = known_proc;
        self.is_called = is_called;
        self.uncalled = uncalled;
        self.crit_origin = crit_origin;
        self.decisive_var = decisive_var;
    }

    /// What is said of the pending instances.
    fn report_instances(&mut self, engine: &Engine, st: &State, insts: &Table,
        Ghost(w): Ghost<Setting>)
        requires
            st.wf(),
            engine.ok(st.store@, w),
            insts.wf(),
            means_inst(insts@, st.store@, held_anywhere(st.said())),
        ensures
            *final(self) == (HybridAnalysis {
                crit_operand: final(self).crit_operand,
                call_crit: final(self).call_crit,
                load_crit: final(self).load_crit,
                store_crit: final(self).store_crit,
                index_crit: final(self).index_crit,
                decisive_slot: final(self).decisive_slot,
                crit_sig: final(self).crit_sig,
                ..*old(self)
            }),
            exact(final(self).crit_operand@, operand_set(w, st.said())),
            exact(final(self).call_crit@, sort_set(w, st.said(), Sort::Call)),
            exact(final(self).load_crit@, sort_set(w, st.said(), Sort::Load)),
            exact(final(self).store_crit@, sort_set(w, st.said(), Sort::Store)),
            exact(final(self).index_crit@, sort_set(w, st.said(), Sort::Access)),
            exact(final(self).decisive_slot@, deciding_set(w, st.said())),
            exact(final(self).crit_sig@, crit_sig_set(w, st.said())),
    {
        let ghost m = st.said();
        let operands = engine.slots(st, insts, false, Ghost(w));
        let deciding = engine.slots(st, insts, true, Ghost(w));
        let calls = engine.of_sort(st, insts, Sort::Call, Ghost(w));
        let loads = engine.of_sort(st, insts, Sort::Load, Ghost(w));
        let stores = engine.of_sort(st, insts, Sort::Store, Ghost(w));
        let accesses = engine.of_sort(st, insts, Sort::Access, Ghost(w));
        let sigs = engine.crit_sigs(st, insts, Ghost(w));
        let crit_operand = st.store.list_slots(&operands, Ghost(operand_set(w, m)));
        let call_crit = st.store.list_inst(&calls, Ghost(sort_set(w, m, Sort::Call)));
        let load_crit = st.store.list_inst(&loads, Ghost(sort_set(w, m, Sort::Load)));
        let store_crit = st.store.list_inst(&stores, Ghost(sort_set(w, m, Sort::Store)));
        let index_crit = st.store.list_inst(&accesses, Ghost(sort_set(w, m, Sort::Access)));
        let decisive_slot = st.store.list_slots(&deciding, Ghost(deciding_set(w, m)));
        let crit_sig: Vec<(CritId, Sig)> = st.store.list_sigs(&sigs, Ghost(crit_sig_set(w, m)));
        self.crit_operand = crit_operand;
        self.call_crit = call_crit;
        self.load_crit = load_crit;
        self.store_crit = store_crit;
        self.index_crit = index_crit;
        self.decisive_slot = decisive_slot;
        self.crit_sig = crit_sig;
    }

    /// What is said of each holder and instance.
    fn report_decisions(&mut self, engine: &Engine, st: &State, marks: &Marks,
        Ghost(w): Ghost<Setting>)
        requires
            st.wf(),
            engine.ok(st.store@, w),
            marks.ok(*st, w),
        ensures
            *final(self) == (HybridAnalysis {
                can_propagate: final(self).can_propagate,
                will_propagate: final(self).will_propagate,
                stuck: final(self).stuck,
                blocked: final(self).blocked,
                top: final(self).top,
                resolve: final(self).resolve,
                index_undecidable: final(self).index_undecidable,
                index_acc: final(self).index_acc,
                adequate: final(self).adequate,
                settled: final(self).settled,
                ..*old(self)
            }),
            exact(final(self).can_propagate@, can_propagate_set(w, st.said())),
            exact(final(self).will_propagate@, will_set(w)),
            exact(final(self).stuck@, stuck_set(w, st.said())),
            exact(final(self).blocked@, blocked_set(w, st.said())),
            exact(final(self).top@, top_set(w, st.said())),
            exact(final(self).resolve@, resolve_set(w, st.said())),
            exact(final(self).index_undecidable@, undecidable_set(w, st.said())),
            exact(final(self).index_acc@, index_acc_set(w, st.said())),
            exact(final(self).adequate@, adequate_set(w, st.said())),
            exact(final(self).settled@, settled_set(w, st.said())),
    {
        let ghost m = st.said();
        let can = engine.keep_can_propagate(st, Ghost(w));
        let halted = engine.keep_stuck(st, Ghost(w));
        let barred = engine.keep_blocked(st, marks, Ghost(w));
        let topped = engine.keep_top(st, marks, Ghost(w));
        let sure = engine.keep_adequate(st, marks, Ghost(w));
        let open = engine.keep_undecidable(st, Ghost(w));
        let over = engine.keep_settled(st, marks, Ghost(w));
        proof {
            engine.lemma_will(st.store@, w);
        }
        let can_propagate = st.store.list_held(&can, Ghost(can_propagate_set(w, m)));
        let will_propagate = st.store.list_held(&engine.will, Ghost(will_set(w)));
        let stuck = st.store.list_held(&halted, Ghost(stuck_set(w, m)));
        let blocked = st.store.list_held(&barred, Ghost(blocked_set(w, m)));
        let top = st.store.list_held(&topped, Ghost(top_set(w, m)));
        let adequate = st.store.list_held(&sure, Ghost(adequate_set(w, m)));
        let index_undecidable = st.store.list_held(&open, Ghost(undecidable_set(w, m)));
        let settled = st.store.list_held(&over, Ghost(settled_set(w, m)));
        let resolve = st.list_resolves(marks, Ghost(w));
        let index_acc = st.list_index_accs(marks, Ghost(w));
        self.can_propagate = can_propagate;
        self.will_propagate = will_propagate;
        self.stuck = stuck;
        self.blocked = blocked;
        self.top = top;
        self.resolve = resolve;
        self.index_undecidable = index_undecidable;
        self.index_acc = index_acc;
        self.adequate = adequate;
        self.settled = settled;
    }

    /// The fixpoint, and the roots it publishes.
    fn report_core(&mut self, engine: &Engine, st: &State, Ghost(w): Ghost<Setting>)
        requires
            st.wf(),
            engine.ok(st.store@, w),
        ensures
            *final(self) == (HybridAnalysis {
                edge: final(self).edge,
                points: final(self).points,
                path_used: final(self).path_used,
                pending: final(self).pending,
                free_root: final(self).free_root,
                pub_root: final(self).pub_root,
                pub_points: final(self).pub_points,
                ..*old(self)
            }),
            exact(final(self).edge@, st.said().edge),
            exact(final(self).points@, st.said().points),
            exact(final(self).path_used@, used_set(st.said())),
            exact(final(self).pending@, st.said().pending),
            exact(final(self).free_root@, free_root_set(w, st.said())),
            exact(final(self).pub_root@, pub_root_set(w, st.said())),
            exact(final(self).pub_points@, pub_points_set(w, st.said())),
    {
        let ghost m = st.said();
        proof {
            st.lemma_lists();
        }
        let edge = st.list_edges();
        let points = st.list_points(&st.points, Ghost(m.points));
        let path_used = st.list_used();
        let pending = st.store.list_held(&st.pending, Ghost(m.pending));
        let published = engine.vocabulary(st, Ghost(w));
        let open = engine.free_roots(st, &published, Ghost(w));
        let free_root = st.store.list_roots(&open, Ghost(free_root_set(w, m)));
        let pub_root = st.store.list_roots(&published, Ghost(pub_root_set(w, m)));
        let pub_points = engine.list_pub_points(st, Ghost(w));
        proof {
            assert(used_set(m) =~= Set::new(
                |x: (Name, Root, Path)| m.path_used(x.0, x.2) && x.1 == x.2.root,
            ));
        }
        self.edge = edge;
        self.points = points;
        self.path_used = path_used;
        self.pending = pending;
        self.free_root = free_root;
        self.pub_root = pub_root;
        self.pub_points = pub_points;
    }
}

impl Engine {
    pub proof fn lemma_will(&self, c: Codes, w: Setting)
        requires
            self.ok(c, w),
        ensures
            means_held(self.will@, c, will_set(w)),
    {
        let t = self.will@;
        assert forall|x: (Name, Instance)| #[trigger] will_set(w).contains(x) implies exists|i: int|
            0 <= i < t.len() && (c.name((#[trigger] t[i])[0]), c.inst(t[i][1])) == x by {
            assert(w.will_propagate(x.0, x.1));
            let i = choose|i: int|
                0 <= i < t.len() && c.name((#[trigger] t[i])[0]) == x.0 && c.inst(t[i][1]) == x.1;
            assert((c.name(t[i][0]), c.inst(t[i][1])) == x);
        }
    }
}

impl State {
    /// The tables are the core.
    pub proof fn lemma_lists(&self)
        requires
            self.wf(),
        ensures
            means_held(self.pending@, self.store@, self.said().pending),
            forall|i: int|
                0 <= i < self.points@.len() ==> self.point_ok(#[trigger] self.points@[i])
                    && self.said().points.contains(self.point_of(self.points@[i])),
            forall|x: (Name, Path, Value)| #[trigger]
                self.said().points.contains(x) ==> exists|i: int|
                    0 <= i < self.points@.len() && self.point_of(#[trigger] self.points@[i]) == x,
    {
        let c = self.store@;
        assert forall|i: int| 0 <= i < self.points@.len() implies self.point_ok(
            #[trigger] self.points@[i],
        ) && self.said().points.contains(self.point_of(self.points@[i])) by {
            assert(self.points@.contains(self.points@[i]));
            self.lemma_row_point(self.points@[i]);
        }
        assert forall|x: (Name, Path, Value)| #[trigger] self.said().points.contains(x)
            implies exists|
            i: int,
        | 0 <= i < self.points@.len() && self.point_of(#[trigger] self.points@[i]) == x by {
            let i = self.lemma_point_row(x);
            assert(self.point_of(self.points@[i]) == x);
        }
        assert forall|i: int| 0 <= i < self.pending@.len() implies self.pending_ok(
            #[trigger] self.pending@[i],
        ) && self.said().pending.contains(self.pending_of(self.pending@[i])) by {
            assert(self.pending@.contains(self.pending@[i]));
            self.lemma_row_pending(self.pending@[i]);
        }
        assert forall|x: (Name, Instance)| #[trigger] self.said().pending.contains(x)
            implies exists|
            i: int,
        |
            0 <= i < self.pending@.len() && (
                c.name((#[trigger] self.pending@[i])[0]),
                c.inst(self.pending@[i][1]),
            ) == x by {
            let i = self.lemma_pending_row(x);
            assert(self.pending_of(self.pending@[i]) == x);
        }
    }
}

/// Run Hybrid Inlining on `prog` with k-limit `k`.
///
/// A limit of zero forbids propagation entirely, so every critical statement whose
/// context never pins it is summarized for every context where it occurs.
pub fn run_hybrid(prog: &Program, k: usize) -> (r: HybridAnalysis)
    ensures
        r.program.repeats_facts(prog),
        path_bound::lists(r.program.paths@, path_bound::chosen(*prog)),
        r.program@ == (Edb { paths: path_bound::chosen(*prog), ..prog@ }),
        r.k_limit == k,
        r.derived_from(Core::nothing()),
{
    let mut analysis = HybridAnalysis::for_program(prog, k);
    proof {
        assert(analysis.said() =~= Core::nothing());
    }
    analysis.run();
    analysis
}

} // verus!
