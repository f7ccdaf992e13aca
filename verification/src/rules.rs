//! The rules of the analysis, in three strata.
//!
//! Below the fixpoint stand the predicates that the program's facts settle by
//! themselves: which statements are critical, which calls have one target, which
//! procedures nothing calls. They are plain definitions over [`Edb`].
//!
//! Above them stands [`Syn`], a small least model over the syntax alone: which
//! locals definitely hold a formal's value, and which deciding operands are
//! definitely fed from one. It is what resolution is negated against, so it is
//! complete before the fixpoint starts.
//!
//! The fixpoint itself is [`Core`]: constraints, points-to sets and pending
//! critical statements, mutually recursive and monotone. Every other relation of
//! the analysis (what is blocked, published, resolved) is a definition over a
//! core.
use vstd::prelude::*;

use crate::access_path::{Instance, Path, Root, Step, Value};
use crate::ir::{ArgIdx, Edb, Name};

verus! {

// ---------------------------------------------------------------------------
// What the facts settle by themselves
// ---------------------------------------------------------------------------

impl Edb {
    /// Statement `s` stands in the body of `p`.
    pub open spec fn stands_in(self, s: Name, p: Name) -> bool {
        exists|n: usize| self.in_proc.contains((s, p, n))
    }

    /// `s` stands in some body.
    pub open spec fn located(self, s: Name) -> bool {
        exists|p: Name| self.stands_in(s, p)
    }

    /// Some receiver type dispatches `g` to `p`.
    pub open spec fn sig_target(self, g: Name, p: Name) -> bool {
        exists|t: Name| self.lookup.contains((t, g, p))
    }

    /// The target set of a signature, whatever the receiver's type.
    pub open spec fn targets(self, g: Name) -> Set<Name> {
        Set::new(|p: Name| self.sig_target(g, p))
    }

    /// How many targets a signature that some statement dispatches has.
    pub open spec fn sig_size(self, g: Name, n: nat) -> bool {
        n == self.targets(g).len() && exists|s: Name, r: Name| self.virtual_call.contains((s, r, g))
    }

    /// The virtual call `s` has the single target `p`.
    pub open spec fn mono_target(self, s: Name, p: Name) -> bool {
        exists|r: Name, g: Name| #[trigger]
            self.virtual_call.contains((s, r, g)) && self.targets(g).len() == 1 && self.sig_target(
                g,
                p,
            )
    }

    /// The callee of `s` is statically known to be `p`.
    pub open spec fn eff_direct(self, s: Name, p: Name) -> bool {
        self.direct_call.contains((s, p)) || self.mono_target(s, p)
    }

    pub open spec fn call_stmt(self, s: Name) -> bool {
        exists|r: Name, g: Name| self.virtual_call.contains((s, r, g))
    }

    pub open spec fn load_stmt(self, s: Name) -> bool {
        exists|to: Name, base: Name, i: Name| self.load_index_var.contains((s, to, base, i))
    }

    pub open spec fn store_stmt(self, s: Name) -> bool {
        exists|base: Name, i: Name, from: Name| self.store_index_var.contains((s, base, i, from))
    }

    pub open spec fn index_stmt(self, s: Name) -> bool {
        self.load_stmt(s) || self.store_stmt(s)
    }

    /// A virtual call with more than one target, or an access through a variable
    /// index.
    pub open spec fn critical(self, s: Name) -> bool {
        ||| exists|r: Name, g: Name| #[trigger]
            self.virtual_call.contains((s, r, g)) && self.targets(g).len() > 1
        ||| self.index_stmt(s)
    }

    /// Every procedure the facts name as one, or as the home of a statement.
    pub open spec fn known_proc(self, p: Name) -> bool {
        self.procedure.contains(p) || exists|s: Name| self.stands_in(s, p)
    }

    /// Some statement of the program calls `p` outright.
    pub open spec fn is_called(self, p: Name) -> bool {
        exists|s: Name| #[trigger] self.eff_direct(s, p) && self.located(s)
    }

    pub open spec fn uncalled(self, p: Name) -> bool {
        self.known_proc(p) && !self.is_called(p)
    }

    /// Position `i` is an operand of the critical statement `s`.
    pub open spec fn operand(self, s: Name, i: ArgIdx) -> bool {
        ||| exists|a: Name| self.actual_arg.contains((s, i, a))
        ||| self.index_stmt(s) && i <= 1
        ||| self.store_stmt(s) && i == 2
    }

    /// The operand whose points-to set decides `s`: the receiver of a virtual
    /// call, the index of an access.
    pub open spec fn decisive(self, s: Name, i: ArgIdx) -> bool {
        ||| self.call_stmt(s) && i == 0
        ||| self.index_stmt(s) && i == 1
    }

    /// The deciding operand of `s` as the statement spells it.
    pub open spec fn decisive_var(self, s: Name, v: Name) -> bool {
        ||| exists|g: Name| self.virtual_call.contains((s, v, g))
        ||| exists|to: Name, base: Name| self.load_index_var.contains((s, to, base, v))
        ||| exists|base: Name, from: Name| self.store_index_var.contains((s, base, v, from))
    }

    /// Statement `s` originates the pending instance `id` in `p`.
    pub open spec fn crit_origin(self, p: Name, s: Name, id: Instance) -> bool {
        self.critical(s) && self.stands_in(s, p) && id == Instance::origin(s)
    }

    /// The signature the pending instance `id` dispatches.
    pub open spec fn dispatches(self, s: Name, g: Name) -> bool {
        exists|r: Name| self.virtual_call.contains((s, r, g))
    }

    /// The placeholder of the critical statement `s` is wired to the statement's
    /// operands and result.
    pub open spec fn wires(self, s: Name, sup: Path, sub: Path) -> bool {
        let id = Instance::origin(s);
        ||| exists|i: ArgIdx, a: Name| #[trigger]
            self.actual_arg.contains((s, i, a)) && sup == Path::slot(id, i) && sub == Path::var(a)
        ||| exists|r: Name| #[trigger]
            self.bind_ret.contains((s, r)) && sup == Path::var(r) && sub == Path::res(id)
        ||| exists|to: Name, base: Name, i: Name| #[trigger]
            self.load_index_var.contains((s, to, base, i)) && {
                ||| sup == Path::slot(id, 0) && sub == Path::var(base)
                ||| sup == Path::slot(id, 1) && sub == Path::var(i)
                ||| sup == Path::var(to) && sub == Path::res(id)
            }
        ||| exists|base: Name, i: Name, from: Name| #[trigger]
            self.store_index_var.contains((s, base, i, from)) && {
                ||| sup == Path::slot(id, 0) && sub == Path::var(base)
                ||| sup == Path::slot(id, 1) && sub == Path::var(i)
                ||| sup == Path::slot(id, 2) && sub == Path::var(from)
            }
    }

    /// Statement `s` by itself demands that `sup` contains `sub`.
    pub open spec fn says(self, s: Name, sup: Path, sub: Path) -> bool {
        ||| exists|to: Name, from: Name| #[trigger]
            self.mov.contains((s, to, from)) && sup == Path::var(to) && sub == Path::var(from)
        ||| exists|to: Name, base: Name, f: Name| #[trigger]
            self.load_field.contains((s, to, base, f)) && sup == Path::var(to) && sub == Path::var(
                base,
            ).then_step(Step::Field(f))
        ||| exists|base: Name, f: Name, from: Name| #[trigger]
            self.store_field.contains((s, base, f, from)) && sup == Path::var(base).then_step(
                Step::Field(f),
            ) && sub == Path::var(from)
        ||| exists|to: Name, base: Name, c: Name| #[trigger]
            self.load_index_const.contains((s, to, base, c)) && sup == Path::var(to) && sub
                == Path::var(base).then_step(Step::Index(c))
        ||| exists|base: Name, c: Name, from: Name| #[trigger]
            self.store_index_const.contains((s, base, c, from)) && sup == Path::var(base).then_step(
                Step::Index(c),
            ) && sub == Path::var(from)
        ||| self.critical(s) && self.wires(s, sup, sub)
    }

    /// Statement `s` by itself puts `v` into the points-to set of `w`.
    pub open spec fn holds(self, s: Name, w: Path, v: Value) -> bool {
        ||| exists|x: Name, l: Name| #[trigger]
            self.alloc.contains((s, x, l)) && w == Path::var(x) && v == Value::Alloc(l)
        ||| exists|x: Name, c: Name| #[trigger]
            self.const_assign.contains((s, x, c)) && w == Path::var(x) && v == Value::Const(c)
    }
}

// ---------------------------------------------------------------------------
// What the syntax settles before the fixpoint
// ---------------------------------------------------------------------------

/// The syntactic stratum.
#[verifier::ext_equal]
pub struct Syn {
    /// `(p, v, i)`: the local `v` of `p` definitely holds the value of `par_i@p`.
    pub carries: Set<(Name, Name, ArgIdx)>,
    /// `(p, id, i)`: the deciding slot of instance `id` at `p` is fed from `par_i@p`.
    pub slots: Set<(Name, Instance, ArgIdx)>,
}

impl Syn {
    pub open spec fn le(self, other: Syn) -> bool {
        self.carries.subset_of(other.carries) && self.slots.subset_of(other.slots)
    }

    /// A formal carries its own value.
    pub open spec fn by_formal(e: Edb, p: Name, v: Name, i: ArgIdx) -> bool {
        e.formal.contains((p, i, v))
    }

    /// A move carries what it moves.
    pub open spec fn by_move(self, e: Edb, p: Name, v: Name, i: ArgIdx) -> bool {
        exists|s: Name, from: Name| #[trigger]
            e.mov.contains((s, v, from)) && e.stands_in(s, p) && self.carries.contains((p, from, i))
    }

    /// At the origin, the deciding operand itself carries the formal.
    pub open spec fn by_operand(self, e: Edb, p: Name, id: Instance, i: ArgIdx) -> bool {
        e.crit_origin(p, id.stmt, id) && exists|v: Name| #[trigger]
            e.decisive_var(id.stmt, v) && self.carries.contains((p, v, i))
    }

    /// Across a callsite, the argument bound to the callee's formal carries it.
    pub open spec fn by_argument(self, e: Edb, k: nat, p: Name, id: Instance, i: ArgIdx) -> bool {
        exists|c: Name, id0: Instance, i0: ArgIdx, s: Name, a: Name|
            {
                &&& #[trigger] self.slots.contains((c, id0, i0))
                &&& e.eff_direct(s, c)
                &&& e.stands_in(s, p)
                &&& #[trigger] e.actual_arg.contains((s, i0, a))
                &&& self.carries.contains((p, a, i))
                &&& id0.depth() < k
                &&& id == id0.push(s)
            }
    }

    pub open spec fn closed_under(self, e: Edb, k: nat) -> bool {
        &&& forall|p: Name, v: Name, i: ArgIdx|
            Self::by_formal(e, p, v, i) || #[trigger] self.by_move(e, p, v, i)
                ==> self.carries.contains((p, v, i))
        &&& forall|p: Name, id: Instance, i: ArgIdx|
            #[trigger] self.by_operand(e, p, id, i) || self.by_argument(e, k, p, id, i)
                ==> self.slots.contains((p, id, i))
    }

    /// The least stratum closed under the rules.
    pub open spec fn least(self, e: Edb, k: nat) -> bool {
        &&& self.closed_under(e, k)
        &&& forall|other: Syn| #[trigger] other.closed_under(e, k) ==> self.le(other)
    }
}

// ---------------------------------------------------------------------------
// The fixpoint
// ---------------------------------------------------------------------------

/// The mutually recursive relations.
#[verifier::ext_equal]
pub struct Core {
    /// `(p, sup, sub)`: `sup` contains `sub` while `p` is being summarized.
    pub edge: Set<(Name, Path, Path)>,
    /// `(p, w, v)`: `v` is in the points-to set of `w`.
    pub points: Set<(Name, Path, Value)>,
    /// `(p, id)`: the summary of `p` carries `id` as a placeholder.
    pub pending: Set<(Name, Instance)>,
}

impl Core {
    /// The core that says nothing.
    pub open spec fn nothing() -> Core {
        Core { edge: Set::empty(), points: Set::empty(), pending: Set::empty() }
    }

    pub open spec fn le(self, other: Core) -> bool {
        &&& self.edge.subset_of(other.edge)
        &&& self.points.subset_of(other.points)
        &&& self.pending.subset_of(other.pending)
    }

    /// `w` occurs in a constraint or has a points-to set in `p`.
    pub open spec fn path_used(self, p: Name, w: Path) -> bool {
        ||| exists|b: Path| self.edge.contains((p, w, b))
        ||| exists|a: Path| self.edge.contains((p, a, w))
        ||| exists|v: Value| self.points.contains((p, w, v))
    }
}

/// Where a root of `callee`'s published summary lands when the summary is inlined
/// at the resolved instance `id`; `None` outside that vocabulary, and beyond the
/// k-limit.
pub open spec fn crit_root(callee: Name, id: Instance, root: Root, k: nat) -> Option<Root> {
    match root {
        Root::Var(_) => None,
        Root::Param(p, i) => if p == callee {
            Some(Root::Slot(id, i))
        } else {
            None
        },
        Root::Ret(p) => if p == callee {
            Some(Root::Res(id))
        } else {
            None
        },
        Root::Slot(id2, j) => if id2.nest(id).depth() <= k {
            Some(Root::Slot(id2.nest(id), j))
        } else {
            None
        },
        Root::Res(id2) => if id2.nest(id).depth() <= k {
            Some(Root::Res(id2.nest(id)))
        } else {
            None
        },
    }
}

/// What the fixpoint is taken over: the facts, the k-limit and the finished
/// syntactic stratum.
#[verifier::ext_equal]
pub struct Setting {
    pub e: Edb,
    pub k: nat,
    pub syn: Syn,
}

impl Setting {
    /// `id` is definitely blocked at `p` and definitely has somewhere to go.
    pub open spec fn will_propagate(self, p: Name, id: Instance) -> bool {
        &&& exists|i: ArgIdx| self.syn.slots.contains((p, id, i))
        &&& self.e.is_called(p)
        &&& id.depth() < self.k
    }

    /// `id` may still move into a caller of `p`.
    pub open spec fn can_propagate(self, m: Core, p: Name, id: Instance) -> bool {
        m.pending.contains((p, id)) && self.e.is_called(p) && id.depth() < self.k
    }

    /// `id` has nowhere left to propagate to.
    pub open spec fn stuck(self, m: Core, p: Name, id: Instance) -> bool {
        &&& m.pending.contains((p, id))
        &&& self.e.uncalled(p) || self.e.entry.contains(p) || id.depth() >= self.k
    }

    /// A caller of `p` can still change the values at `root`.
    pub open spec fn free_root(self, m: Core, p: Name, root: Root) -> bool {
        match root {
            Root::Var(_) => false,
            Root::Param(q, i) => q == p && exists|v: Name| self.e.formal.contains((p, i, v)),
            Root::Ret(q) => q == p && self.e.known_proc(p),
            Root::Slot(id, i) => self.can_propagate(m, p, id) && self.e.operand(id.stmt, i),
            Root::Res(id) => self.can_propagate(m, p, id),
        }
    }

    /// `root` belongs to the vocabulary of the summary that `p` publishes.
    pub open spec fn pub_root(self, m: Core, p: Name, root: Root) -> bool {
        match root {
            Root::Var(_) => false,
            Root::Param(q, i) => q == p && exists|v: Name| self.e.formal.contains((p, i, v)),
            Root::Ret(q) => q == p && self.e.known_proc(p),
            Root::Slot(id, i) => m.pending.contains((p, id)) && self.e.operand(id.stmt, i),
            Root::Res(id) => m.pending.contains((p, id)),
        }
    }

    /// The half of the published summary that holds concrete values.
    pub open spec fn pub_points(self, m: Core, p: Name, w: Path, v: Value) -> bool {
        m.points.contains((p, w, v)) && !(v is Path) && self.pub_root(m, p, w.root)
    }

    /// Something a caller still controls may reach the operand that decides `id`.
    pub open spec fn blocked(self, m: Core, p: Name, id: Instance) -> bool {
        m.pending.contains((p, id)) && exists|i: ArgIdx, w: Path| #[trigger]
            m.points.contains((p, Path::slot(id, i), Value::Path(w))) && self.e.decisive(id.stmt, i)
                && self.free_root(m, p, w.root)
    }

    /// `id` must be summarized for every context, here and now.
    pub open spec fn top(self, m: Core, p: Name, id: Instance) -> bool {
        self.blocked(m, p, id) && self.stuck(m, p, id)
    }

    /// Some callee of `s` hands its placeholder `id` to the caller.
    pub open spec fn moves(self, m: Core, s: Name, id: Instance) -> bool {
        id.depth() < self.k && exists|c: Name| #[trigger]
            self.e.eff_direct(s, c) && self.blocked(m, c, id)
    }

    /// The substitution a callsite induces on the callee's published roots.
    pub open spec fn root_map(self, m: Core, s: Name, from: Root, to: Root) -> bool {
        match (from, to) {
            (Root::Param(c, i), Root::Var(a)) => self.e.eff_direct(s, c)
                && self.e.actual_arg.contains((s, i, a)),
            (Root::Ret(c), Root::Var(r)) => self.e.eff_direct(s, c) && self.e.bind_ret.contains(
                (s, r),
            ),
            (Root::Slot(id, i), Root::Slot(id2, j)) => id2 == id.push(s) && i == j && self.moves(
                m,
                s,
                id,
            ) && self.e.operand(id.stmt, i),
            (Root::Res(id), Root::Res(id2)) => id2 == id.push(s) && self.moves(m, s, id),
            _ => false,
        }
    }

    /// An allocation in the receiver's points-to set selects `callee`.
    pub open spec fn selects(self, m: Core, p: Name, id: Instance, callee: Name) -> bool {
        exists|l: Name, t: Name, g: Name|
            {
                &&& #[trigger] m.points.contains((p, Path::slot(id, 0), Value::Alloc(l)))
                &&& #[trigger] self.e.alloc_type.contains((l, t))
                &&& self.e.dispatches(id.stmt, g)
                &&& #[trigger] self.e.lookup.contains((t, g, callee))
            }
    }

    /// An implementation the instance `id` held by `p` may reach.
    pub open spec fn resolve(self, m: Core, p: Name, id: Instance, callee: Name) -> bool {
        ||| m.pending.contains((p, id)) && !self.will_propagate(p, id) && self.selects(
            m,
            p,
            id,
            callee,
        )
        ||| self.top(m, p, id) && exists|g: Name| #[trigger]
            self.e.dispatches(id.stmt, g) && self.e.sig_target(g, callee)
    }

    /// The index holds a concrete value that is not a constant.
    pub open spec fn index_undecidable(self, m: Core, p: Name, id: Instance) -> bool {
        &&& m.pending.contains((p, id))
        &&& !self.will_propagate(p, id)
        &&& self.e.index_stmt(id.stmt)
        &&& exists|l: Name| m.points.contains((p, Path::slot(id, 1), Value::Alloc(l)))
    }

    /// The accessors a variable-index access resolves to.
    pub open spec fn index_acc(self, m: Core, p: Name, id: Instance, acc: Step) -> bool {
        match acc {
            Step::Field(_) => false,
            Step::Index(c) => {
                &&& m.pending.contains((p, id))
                &&& !self.will_propagate(p, id)
                &&& self.e.index_stmt(id.stmt)
                &&& m.points.contains((p, Path::slot(id, 1), Value::Const(c)))
            },
            Step::Unknown => {
                ||| self.index_undecidable(m, p, id)
                ||| self.top(m, p, id) && self.e.index_stmt(id.stmt)
            },
        }
    }

    /// What the base operand of the access `id` may stand for in `p`.
    pub open spec fn base_of(self, m: Core, p: Name, id: Instance, w: Path) -> bool {
        ||| m.edge.contains((p, Path::slot(id, 0), w))
        ||| m.points.contains((p, Path::slot(id, 0), Value::Path(w)))
    }

    /// Nothing the caller still controls reaches the deciding operand.
    pub open spec fn adequate(self, m: Core, p: Name, id: Instance) -> bool {
        m.pending.contains((p, id)) && !self.blocked(m, p, id)
    }

    /// The placeholder defers nothing any more.
    pub open spec fn settled(self, m: Core, p: Name, id: Instance) -> bool {
        ||| !self.blocked(m, p, id) && exists|c: Name| self.resolve(m, p, id, c)
        ||| !self.blocked(m, p, id) && exists|acc: Step| self.index_acc(m, p, id, acc)
        ||| self.top(m, p, id)
    }

    // -- constraints ------------------------------------------------------------

    /// The statements of `p`, each by itself.
    pub open spec fn edge_by_statement(self, p: Name, sup: Path, sub: Path) -> bool {
        exists|s: Name| #[trigger] self.e.stands_in(s, p) && self.e.says(s, sup, sub)
    }

    /// A formal holds what the caller passes.
    pub open spec fn edge_by_formal(self, p: Name, sup: Path, sub: Path) -> bool {
        exists|i: ArgIdx, v: Name| #[trigger]
            self.e.formal.contains((p, i, v)) && sup == Path::var(v) && sub == Path::param(p, i)
    }

    /// The return value holds what is returned.
    pub open spec fn edge_by_return(self, p: Name, sup: Path, sub: Path) -> bool {
        exists|v: Name| #[trigger]
            self.e.ret.contains((p, v)) && sup == Path::ret(p) && sub == Path::var(v)
    }

    /// Suffix congruence from the containing side: an observed extension of the
    /// container contains the same extension of what it contains.
    pub open spec fn edge_by_extending_sup(self, m: Core, p: Name, sup: Path, sub: Path) -> bool {
        &&& m.path_used(p, sup)
        &&& self.e.paths.contains(sub.steps)
        &&& exists|a: Path, b: Path| #[trigger] m.edge.contains((p, a, b))
            && congruent(a, b, sup, sub)
    }

    /// Suffix congruence from the contained side.
    pub open spec fn edge_by_extending_sub(self, m: Core, p: Name, sup: Path, sub: Path) -> bool {
        &&& m.path_used(p, sub)
        &&& self.e.paths.contains(sup.steps)
        &&& exists|a: Path, b: Path| #[trigger] m.edge.contains((p, a, b))
            && congruent(b, a, sub, sup)
    }

    /// A callee's published path constraint, inlined at a callsite of `p` whose
    /// target is known.
    pub open spec fn edge_by_call(self, m: Core, p: Name, sup: Path, sub: Path) -> bool {
        exists|s: Name, c: Name, a: Path, b: Path|
            {
                &&& #[trigger] self.e.eff_direct(s, c)
                &&& self.e.stands_in(s, p)
                &&& #[trigger] m.points.contains((c, a, Value::Path(b)))
                &&& self.root_map(m, s, a.root, sup.root)
                &&& self.root_map(m, s, b.root, sub.root)
                &&& sup.steps == a.steps
                &&& sub.steps == b.steps
            }
    }

    /// A callee's published path constraint, inlined at a resolved critical call.
    pub open spec fn edge_by_dispatch(self, m: Core, p: Name, sup: Path, sub: Path) -> bool {
        exists|id: Instance, c: Name, a: Path, b: Path|
            {
                &&& #[trigger] self.resolve(m, p, id, c)
                &&& #[trigger] m.points.contains((c, a, Value::Path(b)))
                &&& crit_root(c, id, a.root, self.k) == Some(sup.root)
                &&& crit_root(c, id, b.root, self.k) == Some(sub.root)
                &&& sup.steps == a.steps
                &&& sub.steps == b.steps
            }
    }

    /// A decided load through an index reads the extended base.
    pub open spec fn edge_by_load(self, m: Core, p: Name, sup: Path, sub: Path) -> bool {
        self.e.paths.contains(sub.steps) && exists|id: Instance, acc: Step, w: Path|
            {
                &&& #[trigger] self.index_acc(m, p, id, acc)
                &&& self.e.load_stmt(id.stmt)
                &&& #[trigger] self.base_of(m, p, id, w)
                &&& sup == Path::res(id)
                &&& sub == w.then_step(acc)
            }
    }

    /// A decided store through an index writes the extended base.
    pub open spec fn edge_by_store(self, m: Core, p: Name, sup: Path, sub: Path) -> bool {
        self.e.paths.contains(sup.steps) && exists|id: Instance, acc: Step, w: Path|
            {
                &&& #[trigger] self.index_acc(m, p, id, acc)
                &&& self.e.store_stmt(id.stmt)
                &&& #[trigger] self.base_of(m, p, id, w)
                &&& sup == w.then_step(acc)
                &&& sub == Path::slot(id, 2)
            }
    }

    /// Some rule derives the constraint from `m`.
    pub open spec fn edge_from(self, m: Core, p: Name, sup: Path, sub: Path) -> bool {
        ||| self.edge_by_statement(p, sup, sub)
        ||| self.edge_by_formal(p, sup, sub)
        ||| self.edge_by_return(p, sup, sub)
        ||| self.edge_by_extending_sup(m, p, sup, sub)
        ||| self.edge_by_extending_sub(m, p, sup, sub)
        ||| self.edge_by_call(m, p, sup, sub)
        ||| self.edge_by_dispatch(m, p, sup, sub)
        ||| self.edge_by_load(m, p, sup, sub)
        ||| self.edge_by_store(m, p, sup, sub)
    }

    // -- points-to sets -----------------------------------------------------------

    pub open spec fn points_by_statement(self, p: Name, w: Path, v: Value) -> bool {
        exists|s: Name| #[trigger] self.e.stands_in(s, p) && self.e.holds(s, w, v)
    }

    /// What is contained flows to the container.
    pub open spec fn points_by_flow(self, m: Core, p: Name, w: Path, v: Value) -> bool {
        exists|sub: Path| #[trigger] m.edge.contains((p, w, sub)) && m.points.contains((p, sub, v))
    }

    /// A symbolic path is itself a value, and is never dropped.
    pub open spec fn points_by_symbol(self, m: Core, p: Name, w: Path, v: Value) -> bool {
        v matches Value::Path(sub) && m.edge.contains((p, w, sub)) && sub.root.is_symbolic()
    }

    pub open spec fn points_by_call(self, m: Core, p: Name, w: Path, v: Value) -> bool {
        exists|s: Name, c: Name, a: Path|
            {
                &&& #[trigger] self.e.eff_direct(s, c)
                &&& self.e.stands_in(s, p)
                &&& #[trigger] self.pub_points(m, c, a, v)
                &&& self.root_map(m, s, a.root, w.root)
                &&& w.steps == a.steps
            }
    }

    pub open spec fn points_by_dispatch(self, m: Core, p: Name, w: Path, v: Value) -> bool {
        exists|id: Instance, c: Name, a: Path|
            {
                &&& #[trigger] self.resolve(m, p, id, c)
                &&& #[trigger] self.pub_points(m, c, a, v)
                &&& crit_root(c, id, a.root, self.k) == Some(w.root)
                &&& w.steps == a.steps
            }
    }

    pub open spec fn points_from(self, m: Core, p: Name, w: Path, v: Value) -> bool {
        ||| self.points_by_statement(p, w, v)
        ||| self.points_by_flow(m, p, w, v)
        ||| self.points_by_symbol(m, p, w, v)
        ||| self.points_by_call(m, p, w, v)
        ||| self.points_by_dispatch(m, p, w, v)
    }

    // -- pending critical statements ------------------------------------------------

    /// A placeholder moves into the caller while the caller still controls what
    /// decides it.
    pub open spec fn pending_by_call(self, m: Core, p: Name, id: Instance) -> bool {
        exists|s: Name, c: Name, id0: Instance|
            {
                &&& #[trigger] self.e.eff_direct(s, c)
                &&& self.e.stands_in(s, p)
                &&& #[trigger] self.blocked(m, c, id0)
                &&& id0.depth() < self.k
                &&& id == id0.push(s)
            }
    }

    /// A resolved callee's own placeholders are renamed into the holder.
    pub open spec fn pending_by_dispatch(self, m: Core, p: Name, id: Instance) -> bool {
        exists|id0: Instance, c: Name, id2: Instance|
            {
                &&& #[trigger] self.resolve(m, p, id0, c)
                &&& #[trigger] m.pending.contains((c, id2))
                &&& id2.nest(id0).depth() <= self.k
                &&& id == id2.nest(id0)
            }
    }

    pub open spec fn pending_from(self, m: Core, p: Name, id: Instance) -> bool {
        ||| self.e.crit_origin(p, id.stmt, id)
        ||| self.pending_by_call(m, p, id)
        ||| self.pending_by_dispatch(m, p, id)
    }

    // -- the model --------------------------------------------------------------------

    /// Nothing more follows from `m`.
    pub open spec fn closed_under(self, m: Core) -> bool {
        &&& forall|p: Name, sup: Path, sub: Path| #[trigger]
            self.edge_from(m, p, sup, sub) ==> m.edge.contains((p, sup, sub))
        &&& forall|p: Name, w: Path, v: Value| #[trigger]
            self.points_from(m, p, w, v) ==> m.points.contains((p, w, v))
        &&& forall|p: Name, id: Instance| #[trigger]
            self.pending_from(m, p, id) ==> m.pending.contains((p, id))
    }

    /// Everything in `m` follows from `seed`.
    pub open spec fn follows(self, seed: Core, m: Core) -> bool {
        forall|other: Core| #[trigger] self.closed_under(other) && seed.le(other) ==> m.le(other)
    }

    /// `m` is the least core that holds `seed` and is closed under the rules.
    pub open spec fn least(self, seed: Core, m: Core) -> bool {
        self.closed_under(m) && seed.le(m) && self.follows(seed, m)
    }
}

/// `sup2` extends `sup` by a nonempty suffix, and `sub2` extends `sub` by the same.
pub open spec fn congruent(sup: Path, sub: Path, sup2: Path, sub2: Path) -> bool {
    &&& sup2.extends(sup)
    &&& sup2.steps.len() > sup.steps.len()
    &&& sub2 == sub.with_steps(sub.steps + sup2.steps.skip(sup.steps.len() as int))
}

// ---------------------------------------------------------------------------
// Monotonicity
// ---------------------------------------------------------------------------

/// The rules of the syntactic stratum are monotone.
pub proof fn lemma_syn_monotone(e: Edb, k: nat, a: Syn, b: Syn)
    requires
        a.le(b),
    ensures
        forall|p: Name, v: Name, i: ArgIdx|
            a.by_move(e, p, v, i) ==> #[trigger] b.by_move(e, p, v, i),
        forall|p: Name, id: Instance, i: ArgIdx|
            a.by_operand(e, p, id, i) ==> #[trigger] b.by_operand(e, p, id, i),
        forall|p: Name, id: Instance, i: ArgIdx|
            a.by_argument(e, k, p, id, i) ==> #[trigger] b.by_argument(e, k, p, id, i),
{
}

/// What is blocked, published, or placed stays so as the core grows.
pub proof fn lemma_monotone(w: Setting, a: Core, b: Core)
    requires
        a.le(b),
    ensures
        forall|p: Name, x: Path| #[trigger] a.path_used(p, x) ==> b.path_used(p, x),
        forall|p: Name, id: Instance|
            #[trigger] w.can_propagate(a, p, id) ==> w.can_propagate(b, p, id),
        forall|p: Name, id: Instance| #[trigger] w.stuck(a, p, id) ==> w.stuck(b, p, id),
        forall|p: Name, r: Root| #[trigger] w.free_root(a, p, r) ==> w.free_root(b, p, r),
        forall|p: Name, r: Root| #[trigger] w.pub_root(a, p, r) ==> w.pub_root(b, p, r),
        forall|p: Name, x: Path, v: Value|
            #[trigger] w.pub_points(a, p, x, v) ==> w.pub_points(b, p, x, v),
        forall|p: Name, id: Instance| #[trigger] w.blocked(a, p, id) ==> w.blocked(b, p, id),
        forall|p: Name, id: Instance| #[trigger] w.top(a, p, id) ==> w.top(b, p, id),
        forall|s: Name, id: Instance| #[trigger] w.moves(a, s, id) ==> w.moves(b, s, id),
        forall|s: Name, r: Root, t: Root|
            #[trigger] w.root_map(a, s, r, t) ==> w.root_map(b, s, r, t),
        forall|p: Name, id: Instance, c: Name|
            #[trigger] w.resolve(a, p, id, c) ==> w.resolve(b, p, id, c),
        forall|p: Name, id: Instance, acc: Step|
            #[trigger] w.index_acc(a, p, id, acc) ==> w.index_acc(b, p, id, acc),
        forall|p: Name, id: Instance, x: Path|
            #[trigger] w.base_of(a, p, id, x) ==> w.base_of(b, p, id, x),
{
    assert forall|p: Name, id: Instance| w.blocked(a, p, id) implies #[trigger] w.blocked(
        b,
        p,
        id,
    ) by {
        let (i, x) = choose|i: ArgIdx, x: Path| #[trigger]
            a.points.contains((p, Path::slot(id, i), Value::Path(x))) && w.e.decisive(id.stmt, i)
                && w.free_root(a, p, x.root);
        assert(b.points.contains((p, Path::slot(id, i), Value::Path(x))));
    }
}

/// Every rule is monotone.
pub proof fn lemma_rules_monotone(w: Setting, a: Core, b: Core)
    requires
        a.le(b),
    ensures
        forall|p: Name, x: Path, y: Path|
            w.edge_from(a, p, x, y) ==> #[trigger] w.edge_from(b, p, x, y),
        forall|p: Name, x: Path, v: Value|
            w.points_from(a, p, x, v) ==> #[trigger] w.points_from(b, p, x, v),
        forall|p: Name, id: Instance|
            w.pending_from(a, p, id) ==> #[trigger] w.pending_from(b, p, id),
{
    lemma_monotone(w, a, b);
    assert forall|p: Name, x: Path, y: Path|
        w.edge_from(a, p, x, y) implies #[trigger] w.edge_from(b, p, x, y) by {
        if w.edge_by_extending_sup(a, p, x, y) {
            assert(w.edge_by_extending_sup(b, p, x, y));
        }
        if w.edge_by_extending_sub(a, p, x, y) {
            assert(w.edge_by_extending_sub(b, p, x, y));
        }
        if w.edge_by_call(a, p, x, y) {
            assert(w.edge_by_call(b, p, x, y));
        }
        if w.edge_by_dispatch(a, p, x, y) {
            assert(w.edge_by_dispatch(b, p, x, y));
        }
        if w.edge_by_load(a, p, x, y) {
            assert(w.edge_by_load(b, p, x, y));
        }
        if w.edge_by_store(a, p, x, y) {
            assert(w.edge_by_store(b, p, x, y));
        }
    }
    assert forall|p: Name, x: Path, v: Value|
        w.points_from(a, p, x, v) implies #[trigger] w.points_from(b, p, x, v) by {
        if w.points_by_flow(a, p, x, v) {
            assert(w.points_by_flow(b, p, x, v));
        }
        if w.points_by_call(a, p, x, v) {
            assert(w.points_by_call(b, p, x, v));
        }
        if w.points_by_dispatch(a, p, x, v) {
            assert(w.points_by_dispatch(b, p, x, v));
        }
    }
    assert forall|p: Name, id: Instance|
        w.pending_from(a, p, id) implies #[trigger] w.pending_from(b, p, id) by {
        if w.pending_by_call(a, p, id) {
            assert(w.pending_by_call(b, p, id));
        }
        if w.pending_by_dispatch(a, p, id) {
            assert(w.pending_by_dispatch(b, p, id));
        }
    }
}

} // verus!
