//! What holds of every finished analysis.
//!
//! Each law is stated over the least model of the rules, or over an analysis that
//! lists one, and proved by rule induction: the tuples with the property, taken by
//! themselves, are already closed under the rules, so the least model holds no
//! others.
use vstd::prelude::*;

use crate::access_path::{Inclusion, Instance, Path, Root, Step, Value};
use crate::analysis::HybridAnalysis;
use crate::ir::{ArgIdx, Edb, Name, Program};
use crate::path_bound;
use crate::rules::{self, Core, Setting, Syn};
use crate::tuples::tuples;

verus! {

/// `h` is the finished analysis of `prog`, as [`crate::analysis::run_hybrid`] leaves it.
pub open spec fn analysed(h: &HybridAnalysis, prog: Program) -> bool {
    &&& h.program@ == (Edb { paths: path_bound::chosen(prog), ..prog@ })
    &&& h.derived_from(Core::nothing())
}

// ---------------------------------------------------------------------------
// Rule induction
// ---------------------------------------------------------------------------

/// The tuples of `m` that have the property.
pub open spec fn narrowed(
    m: Core,
    edge: spec_fn(Name, Path, Path) -> bool,
    points: spec_fn(Name, Path, Value) -> bool,
    pending: spec_fn(Name, Instance) -> bool,
) -> Core {
    Core {
        edge: m.edge.filter(|x: (Name, Path, Path)| edge(x.0, x.1, x.2)),
        points: m.points.filter(|x: (Name, Path, Value)| points(x.0, x.1, x.2)),
        pending: m.pending.filter(|x: (Name, Instance)| pending(x.0, x.1)),
    }
}

/// Every rule, fed with tuples that have the property, derives one that has it.
pub open spec fn inductive(
    w: Setting,
    m: Core,
    edge: spec_fn(Name, Path, Path) -> bool,
    points: spec_fn(Name, Path, Value) -> bool,
    pending: spec_fn(Name, Instance) -> bool,
) -> bool {
    let n = narrowed(m, edge, points, pending);
    &&& forall|p: Name, a: Path, b: Path| #[trigger] w.edge_from(n, p, a, b) ==> edge(p, a, b)
    &&& forall|p: Name, a: Path, v: Value| #[trigger] w.points_from(n, p, a, v) ==> points(p, a, v)
    &&& forall|p: Name, id: Instance| #[trigger] w.pending_from(n, p, id) ==> pending(p, id)
}

/// What every rule keeps holds of the whole least model.
pub proof fn law_rule_induction(
    w: Setting,
    m: Core,
    edge: spec_fn(Name, Path, Path) -> bool,
    points: spec_fn(Name, Path, Value) -> bool,
    pending: spec_fn(Name, Instance) -> bool,
)
    requires
        w.least(Core::nothing(), m),
        inductive(w, m, edge, points, pending),
    ensures
        forall|p: Name, a: Path, b: Path| #[trigger] m.edge.contains((p, a, b)) ==> edge(p, a, b),
        forall|p: Name, a: Path, v: Value| #[trigger]
            m.points.contains((p, a, v)) ==> points(p, a, v),
        forall|p: Name, id: Instance| #[trigger] m.pending.contains((p, id)) ==> pending(p, id),
{
    let n = narrowed(m, edge, points, pending);
    assert(n.le(m));
    rules::lemma_rules_monotone(w, n, m);
    assert(w.closed_under(n)) by {
        assert forall|p: Name, a: Path, b: Path| #[trigger]
            w.edge_from(n, p, a, b) implies n.edge.contains((p, a, b)) by {
            assert(w.edge_from(m, p, a, b));
        }
        assert forall|p: Name, a: Path, v: Value| #[trigger]
            w.points_from(n, p, a, v) implies n.points.contains((p, a, v)) by {
            assert(w.points_from(m, p, a, v));
        }
        assert forall|p: Name, id: Instance| #[trigger]
            w.pending_from(n, p, id) implies n.pending.contains((p, id)) by {
            assert(w.pending_from(m, p, id));
        }
    }
    assert(Core::nothing().le(n));
    assert(m.le(n));
    assert forall|p: Name, a: Path, b: Path| #[trigger] m.edge.contains((p, a, b)) implies edge(
        p,
        a,
        b,
    ) by {
        assert(n.edge.contains((p, a, b)));
    }
    assert forall|p: Name, a: Path, v: Value| #[trigger]
        m.points.contains((p, a, v)) implies points(p, a, v) by {
        assert(n.points.contains((p, a, v)));
    }
    assert forall|p: Name, id: Instance| #[trigger] m.pending.contains((p, id)) implies pending(
        p,
        id,
    ) by {
        assert(n.pending.contains((p, id)));
    }
}

// ---------------------------------------------------------------------------
// The model
// ---------------------------------------------------------------------------

/// The rules settle the result: two least models over the same seed are the same.
pub proof fn law_model_is_unique(w: Setting, seed: Core, a: Core, b: Core)
    requires
        w.least(seed, a),
        w.least(seed, b),
    ensures
        a == b,
{
    assert(a.le(b) && b.le(a));
    assert(a.edge =~= b.edge);
    assert(a.points =~= b.points);
    assert(a.pending =~= b.pending);
}

/// The syntactic stratum is settled as well.
pub proof fn law_syntax_is_unique(e: Edb, k: nat, a: Syn, b: Syn)
    requires
        a.least(e, k),
        b.least(e, k),
    ensures
        a == b,
{
    assert(a.le(b) && b.le(a));
    assert(a.carries =~= b.carries);
    assert(a.slots =~= b.slots);
}

/// Running a finished analysis again derives nothing new.
pub proof fn law_running_again_changes_nothing(w: Setting, seed: Core, m: Core, again: Core)
    requires
        w.least(seed, m),
        w.least(m, again),
    ensures
        again == m,
{
    assert(w.follows(m, m));
    law_model_is_unique(w, m, again, m);
}

/// A larger seed derives at least as much.
pub proof fn law_seed_is_monotone(w: Setting, seed: Core, more: Core, a: Core, b: Core)
    requires
        seed.le(more),
        w.least(seed, a),
        w.least(more, b),
    ensures
        a.le(b),
{
    assert(seed.le(b));
}

/// Two fresh analyses of the same facts under the same limit hold the same fixpoint.
pub proof fn law_analysis_is_deterministic(a: &HybridAnalysis, b: &HybridAnalysis)
    requires
        a.derived_from(Core::nothing()),
        b.derived_from(Core::nothing()),
        a.program@ == b.program@,
        a.k_limit == b.k_limit,
    ensures
        a.said() == b.said(),
        a.setting() == b.setting(),
{
    let (x, y) = (a.setting(), b.setting());
    law_syntax_is_unique(x.e, x.k, x.syn, y.syn);
    law_model_is_unique(x, Core::nothing(), a.said(), b.said());
}

/// Every relation of `a` holds what that of `b` holds.
pub open spec fn same_relations(a: &HybridAnalysis, b: &HybridAnalysis) -> bool {
    &&& tuples(a.sig_target@) == tuples(b.sig_target@)
    &&& tuples(a.sig_size@) == tuples(b.sig_size@)
    &&& tuples(a.mono_target@) == tuples(b.mono_target@)
    &&& tuples(a.eff_direct@) == tuples(b.eff_direct@)
    &&& tuples(a.critical@) == tuples(b.critical@)
    &&& tuples(a.known_proc@) == tuples(b.known_proc@)
    &&& tuples(a.is_called@) == tuples(b.is_called@)
    &&& tuples(a.uncalled@) == tuples(b.uncalled@)
    &&& tuples(a.edge@) == tuples(b.edge@)
    &&& tuples(a.points@) == tuples(b.points@)
    &&& tuples(a.path_used@) == tuples(b.path_used@)
    &&& tuples(a.crit_origin@) == tuples(b.crit_origin@)
    &&& tuples(a.pending@) == tuples(b.pending@)
    &&& tuples(a.can_propagate@) == tuples(b.can_propagate@)
    &&& tuples(a.carries@) == tuples(b.carries@)
    &&& tuples(a.decisive_var@) == tuples(b.decisive_var@)
    &&& tuples(a.slot_from_formal@) == tuples(b.slot_from_formal@)
    &&& tuples(a.will_propagate@) == tuples(b.will_propagate@)
    &&& tuples(a.stuck@) == tuples(b.stuck@)
    &&& tuples(a.crit_operand@) == tuples(b.crit_operand@)
    &&& tuples(a.call_crit@) == tuples(b.call_crit@)
    &&& tuples(a.load_crit@) == tuples(b.load_crit@)
    &&& tuples(a.store_crit@) == tuples(b.store_crit@)
    &&& tuples(a.index_crit@) == tuples(b.index_crit@)
    &&& tuples(a.decisive_slot@) == tuples(b.decisive_slot@)
    &&& tuples(a.crit_sig@) == tuples(b.crit_sig@)
    &&& tuples(a.free_root@) == tuples(b.free_root@)
    &&& tuples(a.pub_root@) == tuples(b.pub_root@)
    &&& tuples(a.pub_points@) == tuples(b.pub_points@)
    &&& tuples(a.root_map@) == tuples(b.root_map@)
    &&& tuples(a.blocked@) == tuples(b.blocked@)
    &&& tuples(a.top@) == tuples(b.top@)
    &&& tuples(a.resolve@) == tuples(b.resolve@)
    &&& tuples(a.index_undecidable@) == tuples(b.index_undecidable@)
    &&& tuples(a.index_acc@) == tuples(b.index_acc@)
    &&& tuples(a.adequate@) == tuples(b.adequate@)
    &&& tuples(a.settled@) == tuples(b.settled@)
}

/// The facts, the limit and the seed determine every relation.
pub proof fn law_answers_are_determined(a: &HybridAnalysis, b: &HybridAnalysis, seed: Core)
    requires
        a.derived_from(seed),
        b.derived_from(seed),
        a.program@ == b.program@,
        a.k_limit == b.k_limit,
    ensures
        same_relations(a, b),
{
    let (x, y) = (a.setting(), b.setting());
    law_syntax_is_unique(x.e, x.k, x.syn, y.syn);
    assert(x == y);
    law_model_is_unique(x, seed, a.said(), b.said());
    assert(a.said() == b.said());
    assert(tuples(a.edge@) == a.said().edge && tuples(b.edge@) == b.said().edge);
    assert(tuples(a.points@) == a.said().points && tuples(b.points@) == b.said().points);
    assert(tuples(a.pending@) == a.said().pending && tuples(b.pending@) == b.said().pending);
    assert(tuples(a.carries@) == x.syn.carries && tuples(b.carries@) == y.syn.carries);
    assert(tuples(a.slot_from_formal@) == x.syn.slots
        && tuples(b.slot_from_formal@) == y.syn.slots);
}

/// Running a finished analysis again changes no relation.
pub proof fn law_second_run_changes_nothing(
    h: &HybridAnalysis,
    seed: Core,
    again: &HybridAnalysis,
)
    requires
        h.derived_from(seed),
        again.program == h.program,
        again.k_limit == h.k_limit,
        h.answers_follow() ==> again.derived_from(h.said()),
    ensures
        h.answers_follow(),
        same_relations(h, again),
{
    let (w, m) = (h.setting(), h.said());
    assert(w.least(m, m)) by {
        assert(w.closed_under(m));
    }
    assert(h.derived_from(m));
    assert(h.within(h));
    law_answers_are_determined(h, again, m);
}

// ---------------------------------------------------------------------------
// Pending instances
// ---------------------------------------------------------------------------

/// The k-limit bounds every call string, recursive programs included.
pub proof fn law_call_strings_are_bounded(w: Setting, m: Core, p: Name, id: Instance)
    requires
        w.least(Core::nothing(), m),
        m.pending.contains((p, id)),
    ensures
        id.depth() <= w.k,
{
    law_rule_induction(
        w,
        m,
        |p: Name, a: Path, b: Path| true,
        |p: Name, a: Path, v: Value| true,
        |p: Name, id: Instance| id.depth() <= w.k,
    );
}

/// An instance is held by a procedure of the program, and originates from a critical
/// statement of it.
pub proof fn law_holders_are_known(w: Setting, m: Core, p: Name, id: Instance)
    requires
        w.least(Core::nothing(), m),
        m.pending.contains((p, id)),
    ensures
        w.e.known_proc(p),
        w.e.critical(id.stmt),
        w.e.located(id.stmt),
{
    let edge = |p: Name, a: Path, b: Path| true;
    let points = |p: Name, a: Path, v: Value| true;
    let pending = |p: Name, id: Instance|
        w.e.known_proc(p) && w.e.critical(id.stmt) && w.e.located(id.stmt);
    let n = narrowed(m, edge, points, pending);
    assert forall|p: Name, id: Instance| #[trigger] w.pending_from(n, p, id) implies pending(
        p,
        id,
    ) by {
        if w.e.crit_origin(p, id.stmt, id) {
            assert(w.e.stands_in(id.stmt, p));
        } else if w.pending_by_call(n, p, id) {
            let (s, c, id0) = choose|s: Name, c: Name, id0: Instance|
                {
                    &&& #[trigger] w.e.eff_direct(s, c)
                    &&& w.e.stands_in(s, p)
                    &&& #[trigger] w.blocked(n, c, id0)
                    &&& id0.depth() < w.k
                    &&& id == id0.push(s)
                };
            assert(n.pending.contains((c, id0)));
        } else {
            let (id0, c, id2) = choose|id0: Instance, c: Name, id2: Instance|
                {
                    &&& #[trigger] w.resolve(n, p, id0, c)
                    &&& #[trigger] n.pending.contains((c, id2))
                    &&& id2.nest(id0).depth() <= w.k
                    &&& id == id2.nest(id0)
                };
            assert(n.pending.contains((p, id0)));
        }
    }
    law_rule_induction(w, m, edge, points, pending);
}

/// With the k-limit at zero nothing propagates: each critical statement is pending
/// exactly where it stands.
pub proof fn law_zero_limit_keeps_everything_in_place(w: Setting, m: Core, p: Name, id: Instance)
    requires
        w.least(Core::nothing(), m),
        w.k == 0,
    ensures
        m.pending.contains((p, id)) <==> w.e.crit_origin(p, id.stmt, id),
        w.blocked(m, p, id) ==> w.top(m, p, id),
        !w.can_propagate(m, p, id),
{
    law_rule_induction(
        w,
        m,
        |p: Name, a: Path, b: Path| true,
        |p: Name, a: Path, v: Value| true,
        |p: Name, id: Instance| w.e.crit_origin(p, id.stmt, id),
    );
    assert(w.e.crit_origin(p, id.stmt, id) ==> w.pending_from(m, p, id));
}

/// An instance that cannot move on is stuck where it is.
pub proof fn law_what_cannot_move_is_stuck(w: Setting, m: Core, p: Name, id: Instance)
    requires
        w.least(Core::nothing(), m),
        m.pending.contains((p, id)),
    ensures
        w.can_propagate(m, p, id) || w.stuck(m, p, id),
{
    law_holders_are_known(w, m, p, id);
}

/// A blocked instance either still moves into a caller or is summarized for every
/// context: none is dropped.
pub proof fn law_blocked_moves_or_tops(w: Setting, m: Core, p: Name, id: Instance)
    requires
        w.least(Core::nothing(), m),
        w.blocked(m, p, id),
    ensures
        w.can_propagate(m, p, id) || w.top(m, p, id),
{
    law_what_cannot_move_is_stuck(w, m, p, id);
}

/// A pending instance is adequate or blocked, and never both.
pub proof fn law_adequate_or_blocked(w: Setting, m: Core, p: Name, id: Instance)
    requires
        m.pending.contains((p, id)),
    ensures
        w.adequate(m, p, id) != w.blocked(m, p, id),
{
}

// ---------------------------------------------------------------------------
// Where placeholders go
// ---------------------------------------------------------------------------

/// A placeholder that a callsite renames is pending in the procedure it lands in.
pub proof fn law_renamed_placeholder_is_pending(
    w: Setting,
    m: Core,
    p: Name,
    s: Name,
    from: Root,
    to: Root,
    id: Instance,
)
    requires
        w.closed_under(m),
        w.e.stands_in(s, p),
        w.root_map(m, s, from, to),
        to.instance() == Some(id),
    ensures
        m.pending.contains((p, id)),
{
    let id0 = from.instance()->0;
    assert(w.moves(m, s, id0));
    let c = choose|c: Name| #[trigger] w.e.eff_direct(s, c) && w.blocked(m, c, id0);
    assert(w.pending_by_call(m, p, id));
    assert(w.pending_from(m, p, id));
}

/// A callee's placeholder is renamed into the procedure that resolved the call, and is
/// pending there; what has no place within the k-limit is not renamed at all.
pub proof fn law_resolved_placeholder_is_pending(
    w: Setting,
    m: Core,
    p: Name,
    id: Instance,
    c: Name,
    root: Root,
    to: Root,
)
    requires
        w.closed_under(m),
        w.resolve(m, p, id, c),
        w.pub_root(m, c, root),
        rules::crit_root(c, id, root, w.k) == Some(to),
    ensures
        to.instance() matches Some(id2) && m.pending.contains((p, id2)),
{
    if root.instance() is Some {
        let inner = root.instance()->0;
        assert(m.pending.contains((c, inner)));
        assert(w.pending_by_dispatch(m, p, inner.nest(id)));
        assert(w.pending_from(m, p, inner.nest(id)));
    } else {
        assert(m.pending.contains((p, id)));
    }
}

/// What a resolved call inlines: every published root of the callee has a place, unless
/// its call string would exceed the k-limit, and neither a local nor a root of another
/// procedure has one.
pub proof fn law_inlining_covers_the_published_roots(
    w: Setting,
    m: Core,
    c: Name,
    id: Instance,
    root: Root,
)
    ensures
        w.pub_root(m, c, root) ==> rules::crit_root(c, id, root, w.k) is Some || (
        root.instance() matches Some(inner) && inner.nest(id).depth() > w.k),
        root is Var ==> rules::crit_root(c, id, root, w.k) is None,
        root matches Root::Param(q, i) ==> q != c ==> rules::crit_root(c, id, root, w.k) is None,
        root matches Root::Ret(q) ==> q != c ==> rules::crit_root(c, id, root, w.k) is None,
{
}

/// Every implementation that an instance resolves to is a target of the signature it
/// dispatches.
pub proof fn law_resolution_stays_within_the_targets(
    w: Setting,
    m: Core,
    p: Name,
    id: Instance,
    c: Name,
)
    requires
        w.resolve(m, p, id, c),
    ensures
        m.pending.contains((p, id)),
        exists|g: Name| #[trigger] w.e.dispatches(id.stmt, g) && w.e.sig_target(g, c),
{
    if w.selects(m, p, id, c) && !w.top(m, p, id) {
        let (l, t, g) = choose|l: Name, t: Name, g: Name|
            {
                &&& #[trigger] m.points.contains((p, Path::slot(id, 0), Value::Alloc(l)))
                &&& #[trigger] w.e.alloc_type.contains((l, t))
                &&& w.e.dispatches(id.stmt, g)
                &&& #[trigger] w.e.lookup.contains((t, g, c))
            };
        assert(w.e.sig_target(g, c));
    }
}

/// A caller can change the return value of every known procedure, and whatever a
/// caller can change is published.
pub proof fn law_free_roots_are_published(w: Setting, m: Core, p: Name, root: Root)
    ensures
        w.e.known_proc(p) ==> w.free_root(m, p, Root::Ret(p)),
        w.free_root(m, p, root) ==> w.pub_root(m, p, root),
        w.pub_root(m, p, root) ==> root.is_symbolic(),
{
}

// ---------------------------------------------------------------------------
// Paths and values
// ---------------------------------------------------------------------------

/// A path that stands as a value is never rooted at a local.
pub proof fn law_values_are_symbolic(w: Setting, m: Core, p: Name, a: Path, b: Path)
    requires
        w.least(Core::nothing(), m),
        m.points.contains((p, a, Value::Path(b))),
    ensures
        b.root.is_symbolic(),
{
    let edge = |p: Name, a: Path, b: Path| true;
    let points = |p: Name, a: Path, v: Value|
        match v {
            Value::Path(b) => b.root.is_symbolic(),
            _ => true,
        };
    let pending = |p: Name, id: Instance| true;
    let n = narrowed(m, edge, points, pending);
    assert forall|p: Name, a: Path, v: Value| #[trigger] w.points_from(n, p, a, v) implies points(
        p,
        a,
        v,
    ) by {
        if w.points_by_flow(n, p, a, v) {
            let sub = choose|sub: Path| #[trigger]
                n.edge.contains((p, a, sub)) && n.points.contains((p, sub, v));
            assert(n.points.contains((p, sub, v)));
        }
    }
    law_rule_induction(w, m, edge, points, pending);
}

/// Some statement spells the accessor by itself.
pub open spec fn spells(e: Edb, a: Step) -> bool {
    ||| exists|s: Name, x: Name, y: Name, f: Name|
        a == Step::Field(f) && #[trigger] e.load_field.contains((s, x, y, f))
    ||| exists|s: Name, x: Name, f: Name, y: Name|
        a == Step::Field(f) && #[trigger] e.store_field.contains((s, x, f, y))
    ||| exists|s: Name, x: Name, y: Name, c: Name|
        a == Step::Index(c) && #[trigger] e.load_index_const.contains((s, x, y, c))
    ||| exists|s: Name, x: Name, c: Name, y: Name|
        a == Step::Index(c) && #[trigger] e.store_index_const.contains((s, x, c, y))
}

/// A suffix the analysis may write down.
pub open spec fn writable(e: Edb, steps: Seq<Step>) -> bool {
    ||| steps.len() == 0
    ||| steps.len() == 1 && spells(e, steps[0])
    ||| e.paths.contains(steps)
}

/// The vocabulary is finite: every suffix of every path is empty, one accessor that a
/// statement spells, or one that the program admits.
pub proof fn law_suffixes_are_admitted(w: Setting, m: Core)
    requires
        w.least(Core::nothing(), m),
    ensures
        forall|p: Name, a: Path, b: Path| #[trigger]
            m.edge.contains((p, a, b)) ==> writable(w.e, a.steps) && writable(w.e, b.steps),
        forall|p: Name, a: Path, v: Value| #[trigger]
            m.points.contains((p, a, v)) ==> writable(w.e, a.steps),
        forall|p: Name, a: Path, b: Path| #[trigger]
            m.points.contains((p, a, Value::Path(b))) ==> writable(w.e, b.steps),
{
    let edge = |p: Name, a: Path, b: Path| writable(w.e, a.steps) && writable(w.e, b.steps);
    let points = |p: Name, a: Path, v: Value|
        writable(w.e, a.steps) && match v {
            Value::Path(b) => writable(w.e, b.steps),
            _ => true,
        };
    let pending = |p: Name, id: Instance| true;
    let n = narrowed(m, edge, points, pending);
    assert forall|p: Name, a: Path, b: Path| #[trigger] w.edge_from(n, p, a, b) implies edge(
        p,
        a,
        b,
    ) by {
        if w.edge_by_statement(p, a, b) {
            let s = choose|s: Name| #[trigger] w.e.stands_in(s, p) && w.e.says(s, a, b);
            lemma_says_is_writable(w.e, s, a, b);
        } else if w.edge_by_call(n, p, a, b) {
            let (s, c, x, y) = choose|s: Name, c: Name, x: Path, y: Path|
                {
                    &&& #[trigger] w.e.eff_direct(s, c)
                    &&& w.e.stands_in(s, p)
                    &&& #[trigger] n.points.contains((c, x, Value::Path(y)))
                    &&& w.root_map(n, s, x.root, a.root)
                    &&& w.root_map(n, s, y.root, b.root)
                    &&& a.steps == x.steps
                    &&& b.steps == y.steps
                };
            assert(points(c, x, Value::Path(y)));
        } else if w.edge_by_dispatch(n, p, a, b) {
            let (id, c, x, y) = choose|id: Instance, c: Name, x: Path, y: Path|
                {
                    &&& #[trigger] w.resolve(n, p, id, c)
                    &&& #[trigger] n.points.contains((c, x, Value::Path(y)))
                    &&& rules::crit_root(c, id, x.root, w.k) == Some(a.root)
                    &&& rules::crit_root(c, id, y.root, w.k) == Some(b.root)
                    &&& a.steps == x.steps
                    &&& b.steps == y.steps
                };
            assert(points(c, x, Value::Path(y)));
        } else if w.edge_by_extending_sup(n, p, a, b) {
            lemma_used_is_writable(w, m, p, a);
        } else if w.edge_by_extending_sub(n, p, a, b) {
            lemma_used_is_writable(w, m, p, b);
        }
    }
    assert forall|p: Name, a: Path, v: Value| #[trigger] w.points_from(n, p, a, v) implies points(
        p,
        a,
        v,
    ) by {
        if w.points_by_flow(n, p, a, v) {
            let sub = choose|sub: Path| #[trigger]
                n.edge.contains((p, a, sub)) && n.points.contains((p, sub, v));
            assert(edge(p, a, sub) && points(p, sub, v));
        } else if w.points_by_symbol(n, p, a, v) {
            assert(edge(p, a, v->Path_0));
        } else if w.points_by_call(n, p, a, v) {
            let (s, c, x) = choose|s: Name, c: Name, x: Path|
                {
                    &&& #[trigger] w.e.eff_direct(s, c)
                    &&& w.e.stands_in(s, p)
                    &&& #[trigger] w.pub_points(n, c, x, v)
                    &&& w.root_map(n, s, x.root, a.root)
                    &&& a.steps == x.steps
                };
            assert(points(c, x, v));
        } else if w.points_by_dispatch(n, p, a, v) {
            let (id, c, x) = choose|id: Instance, c: Name, x: Path|
                {
                    &&& #[trigger] w.resolve(n, p, id, c)
                    &&& #[trigger] w.pub_points(n, c, x, v)
                    &&& rules::crit_root(c, id, x.root, w.k) == Some(a.root)
                    &&& a.steps == x.steps
                };
            assert(points(c, x, v));
        }
    }
    law_rule_induction(w, m, edge, points, pending);
    assert forall|p: Name, a: Path, b: Path| #[trigger]
        m.points.contains((p, a, Value::Path(b))) implies writable(w.e, b.steps) by {
        assert(points(p, a, Value::Path(b)));
    }
}

proof fn lemma_says_is_writable(e: Edb, s: Name, a: Path, b: Path)
    requires
        e.says(s, a, b),
    ensures
        writable(e, a.steps),
        writable(e, b.steps),
{
}

proof fn lemma_used_is_writable(w: Setting, m: Core, p: Name, a: Path)
    requires
        ({
            let edge = |p: Name, a: Path, b: Path| writable(w.e, a.steps) && writable(w.e, b.steps);
            let points = |p: Name, a: Path, v: Value|
                writable(w.e, a.steps) && match v {
                    Value::Path(b) => writable(w.e, b.steps),
                    _ => true,
                };
            narrowed(m, edge, points, |p: Name, id: Instance| true).path_used(p, a)
        }),
    ensures
        writable(w.e, a.steps),
{
}

// ---------------------------------------------------------------------------
// What the syntax promises
// ---------------------------------------------------------------------------

/// The facts pass the receiver of every virtual call as its argument zero.
pub open spec fn passes_receivers(e: Edb) -> bool {
    forall|s: Name, r: Name, g: Name| #[trigger]
        e.virtual_call.contains((s, r, g)) ==> e.actual_arg.contains((s, 0usize, r))
}

/// The formal `par_i@p` reaches the operand that decides `id`.
pub open spec fn fed(w: Setting, m: Core, p: Name, id: Instance, i: ArgIdx) -> bool {
    &&& m.pending.contains((p, id))
    &&& exists|v: Name| w.e.formal.contains((p, i, v))
    &&& exists|d: ArgIdx| #[trigger]
        w.e.decisive(id.stmt, d) && w.e.operand(id.stmt, d) && m.points.contains(
            (p, Path::slot(id, d), Value::Path(Path::param(p, i))),
        )
}

/// What the fixpoint makes of the syntactic stratum.
pub open spec fn borne_out(w: Setting, m: Core) -> Syn {
    Syn {
        carries: Set::new(
            |x: (Name, Name, ArgIdx)|
                (exists|v: Name| w.e.formal.contains((x.0, x.2, v))) && m.points.contains(
                    (x.0, Path::var(x.1), Value::Path(Path::param(x.0, x.2))),
                ),
        ),
        slots: Set::new(|x: (Name, Instance, ArgIdx)| fed(w, m, x.0, x.1, x.2)),
    }
}

/// What is promised before the fixpoint starts comes true in it: an instance that will
/// propagate is pending and blocked.
pub proof fn law_will_propagate_is_blocked(w: Setting, m: Core, p: Name, id: Instance)
    requires
        w.syn.least(w.e, w.k),
        w.closed_under(m),
        passes_receivers(w.e),
        w.will_propagate(p, id),
    ensures
        w.blocked(m, p, id),
        w.can_propagate(m, p, id),
{
    let b = borne_out(w, m);
    assert forall|p: Name, v: Name, i: ArgIdx| #[trigger] Syn::by_formal(
        w.e,
        p,
        v,
        i,
    ) implies b.carries.contains((p, v, i)) by {
        lemma_formal_is_carried(w, m, p, v, i);
    }
    assert forall|p: Name, v: Name, i: ArgIdx| #[trigger] b.by_move(
        w.e,
        p,
        v,
        i,
    ) implies b.carries.contains((p, v, i)) by {
        lemma_move_is_carried(w, m, p, v, i);
    }
    assert forall|p: Name, id: Instance, i: ArgIdx|
        #[trigger] b.by_operand(w.e, p, id, i) || b.by_argument(
            w.e,
            w.k,
            p,
            id,
            i,
        ) implies b.slots.contains((p, id, i)) by {
        if b.by_operand(w.e, p, id, i) {
            lemma_operand_is_fed(w, m, p, id, i);
        } else {
            lemma_argument_is_fed(w, m, p, id, i);
        }
    }
    assert(b.closed_under(w.e, w.k));
    assert(w.syn.le(b));
    let i = choose|i: ArgIdx| w.syn.slots.contains((p, id, i));
    assert(b.slots.contains((p, id, i)));
    lemma_fed_is_blocked(w, m, p, id, i);
}

proof fn lemma_formal_is_carried(w: Setting, m: Core, p: Name, v: Name, i: ArgIdx)
    requires
        w.closed_under(m),
        w.e.formal.contains((p, i, v)),
    ensures
        borne_out(w, m).carries.contains((p, v, i)),
{
    assert(w.edge_by_formal(p, Path::var(v), Path::param(p, i)));
    assert(w.edge_from(m, p, Path::var(v), Path::param(p, i)));
    assert(w.points_from(m, p, Path::var(v), Value::Path(Path::param(p, i))));
}

proof fn lemma_move_is_carried(w: Setting, m: Core, p: Name, v: Name, i: ArgIdx)
    requires
        w.closed_under(m),
        borne_out(w, m).by_move(w.e, p, v, i),
    ensures
        borne_out(w, m).carries.contains((p, v, i)),
{
    let b = borne_out(w, m);
    let (s, from) = choose|s: Name, from: Name| #[trigger]
        w.e.mov.contains((s, v, from)) && w.e.stands_in(s, p) && b.carries.contains((p, from, i));
    assert(w.e.says(s, Path::var(v), Path::var(from)));
    assert(w.edge_by_statement(p, Path::var(v), Path::var(from)));
    assert(w.edge_from(m, p, Path::var(v), Path::var(from)));
    assert(m.edge.contains((p, Path::var(v), Path::var(from))));
    assert(w.points_by_flow(m, p, Path::var(v), Value::Path(Path::param(p, i))));
    assert(w.points_from(m, p, Path::var(v), Value::Path(Path::param(p, i))));
}

proof fn lemma_operand_is_fed(w: Setting, m: Core, p: Name, id: Instance, i: ArgIdx)
    requires
        w.closed_under(m),
        passes_receivers(w.e),
        borne_out(w, m).by_operand(w.e, p, id, i),
    ensures
        fed(w, m, p, id, i),
{
    let b = borne_out(w, m);
    let s = id.stmt;
    let v = choose|v: Name| #[trigger] w.e.decisive_var(s, v) && b.carries.contains((p, v, i));
    assert(w.pending_from(m, p, id));
    let d: ArgIdx = if exists|g: Name| w.e.virtual_call.contains((s, v, g)) {
        0
    } else {
        1
    };
    assert(w.e.wires(s, Path::slot(id, d), Path::var(v)) && w.e.decisive(s, d) && w.e.operand(s, d))
        by {
        if exists|g: Name| w.e.virtual_call.contains((s, v, g)) {
            let g = choose|g: Name| w.e.virtual_call.contains((s, v, g));
            assert(w.e.actual_arg.contains((s, 0usize, v)));
            assert(w.e.call_stmt(s));
        } else if exists|to: Name, base: Name| w.e.load_index_var.contains((s, to, base, v)) {
            let (to, base) = choose|to: Name, base: Name|
                w.e.load_index_var.contains((s, to, base, v));
            assert(w.e.load_stmt(s));
        } else {
            let (base, from) = choose|base: Name, from: Name|
                w.e.store_index_var.contains((s, base, v, from));
            assert(w.e.store_stmt(s));
        }
    }
    assert(w.e.says(s, Path::slot(id, d), Path::var(v)));
    assert(w.edge_by_statement(p, Path::slot(id, d), Path::var(v)));
    assert(w.edge_from(m, p, Path::slot(id, d), Path::var(v)));
    assert(m.edge.contains((p, Path::slot(id, d), Path::var(v))));
    assert(w.points_by_flow(m, p, Path::slot(id, d), Value::Path(Path::param(p, i))));
    assert(w.points_from(m, p, Path::slot(id, d), Value::Path(Path::param(p, i))));
}

proof fn lemma_fed_is_blocked(w: Setting, m: Core, p: Name, id: Instance, i: ArgIdx)
    requires
        fed(w, m, p, id, i),
    ensures
        w.blocked(m, p, id),
{
    let d = choose|d: ArgIdx| #[trigger]
        w.e.decisive(id.stmt, d) && w.e.operand(id.stmt, d) && m.points.contains(
            (p, Path::slot(id, d), Value::Path(Path::param(p, i))),
        );
    assert(w.free_root(m, p, Path::param(p, i).root));
    assert(m.points.contains((p, Path::slot(id, d), Value::Path(Path::param(p, i)))));
}

proof fn lemma_argument_is_fed(w: Setting, m: Core, p: Name, id: Instance, i: ArgIdx)
    requires
        w.closed_under(m),
        borne_out(w, m).by_argument(w.e, w.k, p, id, i),
    ensures
        fed(w, m, p, id, i),
{
    let b = borne_out(w, m);
    let (c, id0, i0, s, a) = choose|c: Name, id0: Instance, i0: ArgIdx, s: Name, a: Name|
        {
            &&& #[trigger] b.slots.contains((c, id0, i0))
            &&& w.e.eff_direct(s, c)
            &&& w.e.stands_in(s, p)
            &&& #[trigger] w.e.actual_arg.contains((s, i0, a))
            &&& b.carries.contains((p, a, i))
            &&& id0.depth() < w.k
            &&& id == id0.push(s)
        };
    lemma_fed_is_blocked(w, m, c, id0, i0);
    assert(w.pending_by_call(m, p, id));
    assert(w.pending_from(m, p, id));
    let d = choose|d: ArgIdx| #[trigger]
        w.e.decisive(id0.stmt, d) && w.e.operand(id0.stmt, d) && m.points.contains(
            (c, Path::slot(id0, d), Value::Path(Path::param(c, i0))),
        );
    assert(w.e.decisive(id.stmt, d));
    let (x, y) = (Path::slot(id0, d), Path::param(c, i0));
    let (sup, sub) = (Path::slot(id, d), Path::var(a));
    assert(w.moves(m, s, id0));
    assert(w.root_map(m, s, x.root, sup.root));
    assert(w.root_map(m, s, y.root, sub.root));
    assert(m.points.contains((c, x, Value::Path(y))));
    assert(w.edge_by_call(m, p, sup, sub));
    assert(w.edge_from(m, p, sup, sub));
    assert(m.edge.contains((p, sup, sub)));
    assert(w.points_by_flow(m, p, sup, Value::Path(Path::param(p, i))));
    assert(w.points_from(m, p, sup, Value::Path(Path::param(p, i))));
}

// ---------------------------------------------------------------------------
// The published vocabulary
// ---------------------------------------------------------------------------

/// A return value belongs to a known procedure, and a call that may dispatch to a
/// procedure passes an argument for each of its formals.
pub open spec fn arities_match(e: Edb) -> bool {
    &&& forall|p: Name, v: Name| #[trigger] e.ret.contains((p, v)) ==> e.known_proc(p)
    &&& forall|s: Name, g: Name, c: Name, i: ArgIdx, v: Name| #[trigger]
        e.dispatches(s, g) && #[trigger] e.sig_target(g, c)
            && #[trigger] e.formal.contains((c, i, v))
            ==> e.operand(s, i)
}

/// A local, or a root that `p` publishes.
pub open spec fn spoken(w: Setting, m: Core, p: Name, root: Root) -> bool {
    root is Var || w.pub_root(m, p, root)
}

/// Every root that occurs while `p` is summarized is a local of it or belongs to the
/// vocabulary it publishes: eliminating the locals is all that publishing takes.
pub proof fn law_vocabulary_covers_every_root(w: Setting, m: Core)
    requires
        w.least(Core::nothing(), m),
        arities_match(w.e),
    ensures
        forall|p: Name, a: Path, b: Path| #[trigger]
            m.edge.contains((p, a, b)) ==> spoken(w, m, p, a.root) && spoken(w, m, p, b.root),
        forall|p: Name, a: Path, v: Value| #[trigger]
            m.points.contains((p, a, v)) ==> spoken(w, m, p, a.root),
        forall|p: Name, a: Path, b: Path| #[trigger]
            m.points.contains((p, a, Value::Path(b))) ==> w.pub_root(m, p, b.root),
{
    let edge = |p: Name, a: Path, b: Path| spoken(w, m, p, a.root) && spoken(w, m, p, b.root);
    let points = |p: Name, a: Path, v: Value|
        spoken(w, m, p, a.root) && match v {
            Value::Path(b) => w.pub_root(m, p, b.root),
            _ => true,
        };
    let pending = |p: Name, id: Instance| true;
    let n = narrowed(m, edge, points, pending);
    assert(n.le(m));
    rules::lemma_monotone(w, n, m);
    assert forall|p: Name, a: Path, b: Path| #[trigger] w.edge_from(n, p, a, b) implies edge(
        p,
        a,
        b,
    ) by {
        if w.edge_by_statement(p, a, b) {
            lemma_statement_is_spoken(w, m, p, a, b);
        } else if w.edge_by_formal(p, a, b) {
        } else if w.edge_by_return(p, a, b) {
        } else if w.edge_by_call(n, p, a, b) {
            let (s, c, x, y) = choose|s: Name, c: Name, x: Path, y: Path|
                {
                    &&& #[trigger] w.e.eff_direct(s, c)
                    &&& w.e.stands_in(s, p)
                    &&& #[trigger] n.points.contains((c, x, Value::Path(y)))
                    &&& w.root_map(n, s, x.root, a.root)
                    &&& w.root_map(n, s, y.root, b.root)
                    &&& a.steps == x.steps
                    &&& b.steps == y.steps
                };
            lemma_mapped_is_spoken(w, m, p, s, x.root, a.root);
            lemma_mapped_is_spoken(w, m, p, s, y.root, b.root);
        } else if w.edge_by_dispatch(n, p, a, b) {
            let (id, c, x, y) = choose|id: Instance, c: Name, x: Path, y: Path|
                {
                    &&& #[trigger] w.resolve(n, p, id, c)
                    &&& #[trigger] n.points.contains((c, x, Value::Path(y)))
                    &&& rules::crit_root(c, id, x.root, w.k) == Some(a.root)
                    &&& rules::crit_root(c, id, y.root, w.k) == Some(b.root)
                    &&& a.steps == x.steps
                    &&& b.steps == y.steps
                };
            assert(points(c, x, Value::Path(y)));
            lemma_resolved_is_spoken(w, m, p, id, c, x.root, a.root);
            lemma_resolved_is_spoken(w, m, p, id, c, y.root, b.root);
        } else if w.edge_by_extending_sup(n, p, a, b) {
            let (x, y) = choose|x: Path, y: Path| #[trigger]
                n.edge.contains((p, x, y)) && rules::congruent(x, y, a, b);
            assert(edge(p, x, y));
        } else if w.edge_by_extending_sub(n, p, a, b) {
            let (x, y) = choose|x: Path, y: Path| #[trigger]
                n.edge.contains((p, x, y)) && rules::congruent(y, x, b, a);
            assert(edge(p, x, y));
        } else if w.edge_by_load(n, p, a, b) {
            let (id, acc, x) = choose|id: Instance, acc: Step, x: Path|
                {
                    &&& #[trigger] w.index_acc(n, p, id, acc)
                    &&& w.e.load_stmt(id.stmt)
                    &&& #[trigger] w.base_of(n, p, id, x)
                    &&& a == Path::res(id)
                    &&& b == x.then_step(acc)
                };
            assert(m.pending.contains((p, id)));
            assert(edge(p, Path::slot(id, 0), x) || points(p, Path::slot(id, 0), Value::Path(x)));
        } else {
            let (id, acc, x) = choose|id: Instance, acc: Step, x: Path|
                {
                    &&& #[trigger] w.index_acc(n, p, id, acc)
                    &&& w.e.store_stmt(id.stmt)
                    &&& #[trigger] w.base_of(n, p, id, x)
                    &&& a == x.then_step(acc)
                    &&& b == Path::slot(id, 2)
                };
            assert(m.pending.contains((p, id)));
            assert(edge(p, Path::slot(id, 0), x) || points(p, Path::slot(id, 0), Value::Path(x)));
        }
    }
    assert forall|p: Name, a: Path, v: Value| #[trigger] w.points_from(n, p, a, v) implies points(
        p,
        a,
        v,
    ) by {
        if w.points_by_flow(n, p, a, v) {
            let sub = choose|sub: Path| #[trigger]
                n.edge.contains((p, a, sub)) && n.points.contains((p, sub, v));
            assert(edge(p, a, sub) && points(p, sub, v));
        } else if w.points_by_symbol(n, p, a, v) {
            assert(edge(p, a, v->Path_0));
        } else if w.points_by_call(n, p, a, v) {
            let (s, c, x) = choose|s: Name, c: Name, x: Path|
                {
                    &&& #[trigger] w.e.eff_direct(s, c)
                    &&& w.e.stands_in(s, p)
                    &&& #[trigger] w.pub_points(n, c, x, v)
                    &&& w.root_map(n, s, x.root, a.root)
                    &&& a.steps == x.steps
                };
            lemma_mapped_is_spoken(w, m, p, s, x.root, a.root);
        } else if w.points_by_dispatch(n, p, a, v) {
            let (id, c, x) = choose|id: Instance, c: Name, x: Path|
                {
                    &&& #[trigger] w.resolve(n, p, id, c)
                    &&& #[trigger] w.pub_points(n, c, x, v)
                    &&& rules::crit_root(c, id, x.root, w.k) == Some(a.root)
                    &&& a.steps == x.steps
                };
            assert(w.pub_root(m, c, x.root));
            lemma_resolved_is_spoken(w, m, p, id, c, x.root, a.root);
        }
    }
    law_rule_induction(w, m, edge, points, pending);
    assert forall|p: Name, a: Path, b: Path| #[trigger]
        m.points.contains((p, a, Value::Path(b))) implies w.pub_root(m, p, b.root) by {
        assert(points(p, a, Value::Path(b)));
    }
}

proof fn lemma_statement_is_spoken(w: Setting, m: Core, p: Name, a: Path, b: Path)
    requires
        w.closed_under(m),
        w.edge_by_statement(p, a, b),
    ensures
        spoken(w, m, p, a.root),
        spoken(w, m, p, b.root),
{
    let s = choose|s: Name| #[trigger] w.e.stands_in(s, p) && w.e.says(s, a, b);
    if w.e.critical(s) && w.e.wires(s, a, b) {
        let id = Instance::origin(s);
        assert(w.e.crit_origin(p, id.stmt, id));
        assert(w.pending_from(m, p, id));
        assert(m.pending.contains((p, id)));
    }
}

proof fn lemma_mapped_is_spoken(w: Setting, m: Core, p: Name, s: Name, from: Root, to: Root)
    requires
        w.closed_under(m),
        w.e.stands_in(s, p),
        w.root_map(m, s, from, to),
    ensures
        spoken(w, m, p, to),
{
    if to.instance() is Some {
        law_renamed_placeholder_is_pending(w, m, p, s, from, to, to.instance()->0);
    }
}

proof fn lemma_resolved_is_spoken(
    w: Setting,
    m: Core,
    p: Name,
    id: Instance,
    c: Name,
    from: Root,
    to: Root,
)
    requires
        w.closed_under(m),
        arities_match(w.e),
        w.resolve(m, p, id, c),
        spoken(w, m, c, from),
        rules::crit_root(c, id, from, w.k) == Some(to),
    ensures
        spoken(w, m, p, to),
{
    law_resolved_placeholder_is_pending(w, m, p, id, c, from, to);
    law_resolution_stays_within_the_targets(w, m, p, id, c);
}

// ---------------------------------------------------------------------------
// Summaries
// ---------------------------------------------------------------------------

/// A published summary never mentions a local.
pub proof fn law_summaries_never_mention_a_local(h: &HybridAnalysis, p: Name, c: Inclusion)
    requires
        h.derived_from(Core::nothing()),
        h.summary_of(p).contains(c),
    ensures
        c.sup.root.is_symbolic(),
        c.sub matches Value::Path(sub) ==> sub.root.is_symbolic(),
{
    let w = h.setting();
    let m = h.said();
    assert(tuples(h.pub_root@) == crate::roster::pub_root_set(w, m));
    assert(tuples(h.pub_points@) == crate::roster::pub_points_set(w, m));
}

// ---------------------------------------------------------------------------
// Paths and instances by themselves
// ---------------------------------------------------------------------------

/// Stripping a prefix recovers what was appended to it, and nothing else would have
/// given the same path.
pub proof fn law_stripping_undoes_extending(w: Path, a: Seq<Step>, b: Seq<Step>)
    ensures
        w.with_steps(w.steps + a).extends(w),
        w.with_steps(w.steps + a) == w.with_steps(w.steps + b) ==> a == b,
{
    let (x, y) = (w.with_steps(w.steps + a), w.with_steps(w.steps + b));
    assert(w.steps.is_prefix_of(w.steps + a)) by {
        assert((w.steps + a).take(w.steps.len() as int) =~= w.steps);
    }
    if x == y {
        assert(a =~= x.steps.skip(w.steps.len() as int));
        assert(b =~= y.steps.skip(w.steps.len() as int));
    }
}

/// Rebasing keeps the suffix, and rebasing back gives the path again.
pub proof fn law_rebasing_keeps_the_suffix(w: Path, root: Root)
    ensures
        w.rebase(root).steps == w.steps,
        w.rebase(root).root == root,
        w.rebase(root).rebase(w.root) == w,
{
}

/// Nesting splices call strings: the depths add up with one for the site crossed,
/// nesting is associative, and crossing a callsite nests at the callsite itself.
pub proof fn law_nesting_splices_call_strings(a: Instance, b: Instance, c: Instance)
    ensures
        a.nest(b).depth() == a.depth() + 1 + b.depth(),
        a.nest(b).nest(c) == a.nest(b.nest(c)),
        a.push(b.stmt) == a.nest(Instance::origin(b.stmt)),
{
    assert(a.nest(b).nest(c).chain =~= a.nest(b.nest(c)).chain);
    assert(a.push(b.stmt).chain =~= a.nest(Instance::origin(b.stmt)).chain);
}

} // verus!
