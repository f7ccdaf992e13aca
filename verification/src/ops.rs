//! What a rule computes beside its joins: the paths, roots, instances and values it
//! builds, and the tests it makes.
use vstd::prelude::*;

use crate::access_path::{
    AccessPath, Accessor, Base, CritId, Instance, Path, PtVal, Root, Step, Value,
};
use crate::cells::{Cell, Thing};
use crate::ir::{Alloc, Const, Field, Proc, Stmt, Symbol, Var};
use crate::query::{crit_subst, within};
use crate::rules::crit_root;

verus! {

/// A computation on values; a test hands one of its arguments back.
#[derive(Clone, Copy, PartialEq, Eq, Structural)]
pub enum Op {
    /// The number 0.
    Zero,
    /// The number 1.
    One,
    /// The number 2.
    Two,
    /// More than one.
    Several,
    /// The instance of a statement where it stands.
    Origin,
    /// An instance one callsite further out.
    Push,
    /// An instance renamed into the holder of another.
    Nest,
    /// The statement of an instance.
    StmtOf,
    /// The call string is shorter than the limit.
    Below,
    /// The call string is no shorter than the limit.
    AtLimit,
    /// The renamed call string is no longer than the limit.
    NestsWithin,
    /// A local as a root.
    VarRoot,
    /// A formal as a root.
    ParamRoot,
    /// A return value as a root.
    RetRoot,
    /// An operand of a placeholder as a root.
    SlotRoot,
    /// The result of a placeholder as a root.
    ResRoot,
    /// Where a root lands at a resolved instance.
    CritRoot,
    /// The bare path of a root.
    Bare,
    /// The root of a path.
    RootOf,
    /// The accessors of a path.
    StepsOf,
    /// The path is no local.
    Symbolic,
    /// The same accessors off another root.
    Rebase,
    /// A field of a path.
    FieldOf,
    /// An index of a path.
    IndexOf,
    /// A path one accessor further.
    StepTo,
    /// The third path extends the first; the second extended by the same accessors.
    Extend,
    /// A constant index as an accessor.
    ByIndex,
    /// An undecided index as an accessor.
    ByUnknown,
    /// A path as a value.
    PathValue,
    /// A site as a value.
    AllocValue,
    /// A constant as a value.
    ConstValue,
    /// The value is no path.
    Concrete,
    /// The path that the value is.
    OfPath,
    /// The site that the value is.
    OfAlloc,
    /// The constant that the value is.
    OfConst,
}

/// The value that a computation gives, if it gives one.
pub open spec fn apply(
    op: Op,
    a: Option<Thing>,
    b: Option<Thing>,
    c: Option<Thing>,
    d: Option<Thing>,
) -> Option<Thing> {
    match op {
        Op::Zero => Some(Thing::Num(0usize)),
        Op::One => Some(Thing::Num(1usize)),
        Op::Two => Some(Thing::Num(2usize)),
        Op::Several => match a {
            Some(Thing::Num(n)) => if n > 1 {
                Some(Thing::Num(n))
            } else {
                None
            },
            _ => None,
        },
        Op::Origin => match a {
            Some(Thing::Name(s)) => Some(Thing::Inst(Instance::origin(s))),
            _ => None,
        },
        Op::Push => match (a, b) {
            (Some(Thing::Inst(id)), Some(Thing::Name(s))) => Some(Thing::Inst(id.push(s))),
            _ => None,
        },
        Op::Nest => match (a, b) {
            (Some(Thing::Inst(id)), Some(Thing::Inst(outer))) => Some(Thing::Inst(id.nest(outer))),
            _ => None,
        },
        Op::StmtOf => match a {
            Some(Thing::Inst(id)) => Some(Thing::Name(id.stmt)),
            _ => None,
        },
        Op::Below => match (a, b) {
            (Some(Thing::Inst(id)), Some(Thing::Num(k))) => if id.depth() < k {
                Some(Thing::Num(k))
            } else {
                None
            },
            _ => None,
        },
        Op::AtLimit => match (a, b) {
            (Some(Thing::Inst(id)), Some(Thing::Num(k))) => if id.depth() >= k {
                Some(Thing::Num(k))
            } else {
                None
            },
            _ => None,
        },
        Op::NestsWithin => match (a, b, c) {
            (Some(Thing::Inst(id)), Some(Thing::Inst(outer)),
                Some(Thing::Num(k))) => if id.nest(outer).depth() <= k {
                Some(Thing::Num(k))
            } else {
                None
            },
            _ => None,
        },
        Op::VarRoot => match a {
            Some(Thing::Name(v)) => Some(Thing::Root(Root::Var(v))),
            _ => None,
        },
        Op::ParamRoot => match (a, b) {
            (Some(Thing::Name(p)), Some(Thing::Num(i))) => Some(Thing::Root(Root::Param(p, i))),
            _ => None,
        },
        Op::RetRoot => match a {
            Some(Thing::Name(p)) => Some(Thing::Root(Root::Ret(p))),
            _ => None,
        },
        Op::SlotRoot => match (a, b) {
            (Some(Thing::Inst(id)), Some(Thing::Num(i))) => Some(Thing::Root(Root::Slot(id, i))),
            _ => None,
        },
        Op::ResRoot => match a {
            Some(Thing::Inst(id)) => Some(Thing::Root(Root::Res(id))),
            _ => None,
        },
        Op::CritRoot => match (a, b, c, d) {
            (Some(Thing::Name(p)), Some(Thing::Inst(id)), Some(Thing::Root(r)),
                Some(Thing::Num(k))) => match crit_root(p, id, r, k as nat) {
                Some(to) => Some(Thing::Root(to)),
                None => None,
            },
            _ => None,
        },
        Op::Bare => match a {
            Some(Thing::Root(r)) => Some(Thing::Path(Path::bare(r))),
            _ => None,
        },
        Op::RootOf => match a {
            Some(Thing::Path(w)) => Some(Thing::Root(w.root)),
            _ => None,
        },
        Op::StepsOf => match a {
            Some(Thing::Path(w)) => Some(Thing::Steps(w.steps)),
            _ => None,
        },
        Op::Symbolic => match a {
            Some(Thing::Path(w)) => if w.root.is_symbolic() {
                Some(Thing::Path(w))
            } else {
                None
            },
            _ => None,
        },
        Op::Rebase => match (a, b) {
            (Some(Thing::Path(w)), Some(Thing::Root(r))) => Some(Thing::Path(w.rebase(r))),
            _ => None,
        },
        Op::FieldOf => match (a, b) {
            (Some(Thing::Path(w)), Some(Thing::Name(f))) => Some(
                Thing::Path(w.then_step(Step::Field(f)))),
            _ => None,
        },
        Op::IndexOf => match (a, b) {
            (Some(Thing::Path(w)), Some(Thing::Name(c))) => Some(
                Thing::Path(w.then_step(Step::Index(c)))),
            _ => None,
        },
        Op::StepTo => match (a, b) {
            (Some(Thing::Path(w)), Some(Thing::Step(a))) => Some(Thing::Path(w.then_step(a))),
            _ => None,
        },
        Op::Extend => match (a, b, c) {
            (Some(Thing::Path(sup)), Some(Thing::Path(sub)),
                Some(Thing::Path(longer))) => if longer.extends(sup)
                && longer.steps.len() > sup.steps.len() {
                Some(
                    Thing::Path(
                        sub.with_steps(sub.steps + longer.steps.skip(sup.steps.len() as int)),
                    ),
                )
            } else {
                None
            },
            _ => None,
        },
        Op::ByIndex => match a {
            Some(Thing::Name(c)) => Some(Thing::Step(Step::Index(c))),
            _ => None,
        },
        Op::ByUnknown => Some(Thing::Step(Step::Unknown)),
        Op::PathValue => match a {
            Some(Thing::Path(w)) => Some(Thing::Value(Value::Path(w))),
            _ => None,
        },
        Op::AllocValue => match a {
            Some(Thing::Name(l)) => Some(Thing::Value(Value::Alloc(l))),
            _ => None,
        },
        Op::ConstValue => match a {
            Some(Thing::Name(c)) => Some(Thing::Value(Value::Const(c))),
            _ => None,
        },
        Op::Concrete => match a {
            Some(Thing::Value(v)) => if !(v is Path) {
                Some(Thing::Value(v))
            } else {
                None
            },
            _ => None,
        },
        Op::OfPath => match a {
            Some(Thing::Value(v)) => match v {
                Value::Path(w) => Some(Thing::Path(w)),
                _ => None,
            },
            _ => None,
        },
        Op::OfAlloc => match a {
            Some(Thing::Value(v)) => match v {
                Value::Alloc(l) => Some(Thing::Name(l)),
                _ => None,
            },
            _ => None,
        },
        Op::OfConst => match a {
            Some(Thing::Value(v)) => match v {
                Value::Const(x) => Some(Thing::Name(x)),
                _ => None,
            },
            _ => None,
        },
    }
}

pub open spec fn seen(x: Option<&Cell>) -> Option<Thing> {
    match x {
        Some(x) => Some(x@),
        None => None,
    }
}

fn origin(s: &String) -> (r: CritId)
    ensures
        r@ == Instance::origin(s@),
{
    let r = CritId { stmt: Stmt::of(s.clone()), chain: Vec::new() };
    proof {
        assert(r@.chain =~= Seq::empty());
    }
    r
}

fn bare(r: &Base) -> (w: AccessPath)
    ensures
        w@ == Path::bare(r@),
{
    let w = AccessPath { base: r.clone(), accessors: Vec::new() };
    proof {
        assert(w@.steps =~= Seq::<Step>::empty());
    }
    w
}

fn step_to(w: &AccessPath, a: &Accessor) -> (r: AccessPath)
    ensures
        r@ == w@.then_step(a@),
{
    let one: Vec<Accessor> = vec![a.clone()];
    let suffix = w.suffix().extended(one.as_slice());
    let r = w.with_suffix(&suffix);
    proof {
        assert(r@.steps =~= w@.steps.push(a@));
    }
    r
}

fn extend(sup: &AccessPath, sub: &AccessPath, longer: &AccessPath) -> (r: Option<AccessPath>)
    ensures
        match r {
            Some(x) => longer@.extends(sup@) && longer@.steps.len() > sup@.steps.len() && x@
                == sub@.with_steps(sub@.steps + longer@.steps.skip(sup@.steps.len() as int)),
            None => !(longer@.extends(sup@) && longer@.steps.len() > sup@.steps.len()),
        },
{
    match longer.strip_prefix(sup) {
        None => None,
        Some(rest) => {
            proof {
                assert(longer@.steps == sup@.steps + crate::access_path::steps(rest@));
                assert(longer@.steps.skip(sup@.steps.len() as int) =~= crate::access_path::steps(
                    rest@,
                ));
                assert(sup@.steps.is_prefix_of(longer@.steps));
            }
            if rest.len() == 0 {
                None
            } else {
                let suffix = sub.suffix().extended(rest);
                Some(sub.with_suffix(&suffix))
            }
        },
    }
}

/// Compute.
pub fn compute(
    op: Op,
    a: Option<&Cell>,
    b: Option<&Cell>,
    c: Option<&Cell>,
    d: Option<&Cell>,
) -> (r: Option<Cell>)
    ensures
        match r {
            Some(x) => apply(op, seen(a), seen(b), seen(c), seen(d)) == Some(x@),
            None => apply(op, seen(a), seen(b), seen(c), seen(d)) is None,
        },
{
    match op {
        Op::Zero => Some(Cell::Num(0)),
        Op::One => Some(Cell::Num(1)),
        Op::Two => Some(Cell::Num(2)),
        Op::Several => match a {
            Some(Cell::Num(n)) => if *n > 1 {
                Some(Cell::Num(*n))
            } else {
                None
            },
            _ => None,
        },
        Op::Origin => match a {
            Some(Cell::Name(s)) => Some(Cell::Inst(origin(s))),
            _ => None,
        },
        Op::Push => match (a, b) {
            (Some(Cell::Inst(id)), Some(Cell::Name(s))) => Some(
                Cell::Inst(id.push(&Stmt::of(s.clone())))),
            _ => None,
        },
        Op::Nest => match (a, b) {
            (Some(Cell::Inst(id)), Some(Cell::Inst(outer))) => Some(Cell::Inst(id.nest(outer))),
            _ => None,
        },
        Op::StmtOf => match a {
            Some(Cell::Inst(id)) => Some(Cell::Name(id.stmt.text().clone())),
            _ => None,
        },
        Op::Below => match (a, b) {
            (Some(Cell::Inst(id)), Some(Cell::Num(k))) => if id.depth() < *k {
                Some(Cell::Num(*k))
            } else {
                None
            },
            _ => None,
        },
        Op::AtLimit => match (a, b) {
            (Some(Cell::Inst(id)), Some(Cell::Num(k))) => if id.depth() >= *k {
                Some(Cell::Num(*k))
            } else {
                None
            },
            _ => None,
        },
        Op::NestsWithin => match (a, b, c) {
            (Some(Cell::Inst(id)), Some(Cell::Inst(outer)), Some(Cell::Num(k))) => if within(id,
                outer, *k) {
                Some(Cell::Num(*k))
            } else {
                None
            },
            _ => None,
        },
        Op::VarRoot => match a {
            Some(Cell::Name(v)) => Some(Cell::Root(Base::Var(Var::of(v.clone())))),
            _ => None,
        },
        Op::ParamRoot => match (a, b) {
            (Some(Cell::Name(p)), Some(Cell::Num(i))) => Some(
                Cell::Root(Base::Param(Proc::of(p.clone()), *i))),
            _ => None,
        },
        Op::RetRoot => match a {
            Some(Cell::Name(p)) => Some(Cell::Root(Base::Ret(Proc::of(p.clone())))),
            _ => None,
        },
        Op::SlotRoot => match (a, b) {
            (Some(Cell::Inst(id)), Some(Cell::Num(i))) => Some(Cell::Root(Base::CritSlot(id.clone(),
                *i))),
            _ => None,
        },
        Op::ResRoot => match a {
            Some(Cell::Inst(id)) => Some(Cell::Root(Base::CritRet(id.clone()))),
            _ => None,
        },
        Op::CritRoot => match (a, b, c, d) {
            (Some(Cell::Name(p)), Some(Cell::Inst(id)), Some(Cell::Root(r)),
                Some(Cell::Num(k))) => match crit_subst(&Proc::of(p.clone()), id, r, *k) {
                Some(to) => Some(Cell::Root(to)),
                None => None,
            },
            _ => None,
        },
        Op::Bare => match a {
            Some(Cell::Root(r)) => Some(Cell::Path(bare(r))),
            _ => None,
        },
        Op::RootOf => match a {
            Some(Cell::Path(w)) => Some(Cell::Root(w.base.clone())),
            _ => None,
        },
        Op::StepsOf => match a {
            Some(Cell::Path(w)) => Some(Cell::Steps(w.suffix())),
            _ => None,
        },
        Op::Symbolic => match a {
            Some(Cell::Path(w)) => if w.base.is_symbolic() {
                Some(Cell::Path(w.clone()))
            } else {
                None
            },
            _ => None,
        },
        Op::Rebase => match (a, b) {
            (Some(Cell::Path(w)), Some(Cell::Root(r))) => Some(Cell::Path(w.rebase(r.clone()))),
            _ => None,
        },
        Op::FieldOf => match (a, b) {
            (Some(Cell::Path(w)), Some(Cell::Name(f))) => Some(Cell::Path(step_to(w,
                &Accessor::Field(Field::of(f.clone()))))),
            _ => None,
        },
        Op::IndexOf => match (a, b) {
            (Some(Cell::Path(w)), Some(Cell::Name(c))) => Some(Cell::Path(step_to(w,
                &Accessor::Index(Const::of(c.clone()))))),
            _ => None,
        },
        Op::StepTo => match (a, b) {
            (Some(Cell::Path(w)), Some(Cell::Step(a))) => Some(Cell::Path(step_to(w, a))),
            _ => None,
        },
        Op::Extend => match (a, b, c) {
            (Some(Cell::Path(sup)), Some(Cell::Path(sub)),
                Some(Cell::Path(longer))) => match extend(sup, sub, longer) {
                Some(x) => Some(Cell::Path(x)),
                None => None,
            },
            _ => None,
        },
        Op::ByIndex => match a {
            Some(Cell::Name(c)) => Some(Cell::Step(Accessor::Index(Const::of(c.clone())))),
            _ => None,
        },
        Op::ByUnknown => Some(Cell::Step(Accessor::IndexUnknown)),
        Op::PathValue => match a {
            Some(Cell::Path(w)) => Some(Cell::Value(PtVal::Path(w.clone()))),
            _ => None,
        },
        Op::AllocValue => match a {
            Some(Cell::Name(l)) => Some(Cell::Value(PtVal::Alloc(Alloc::of(l.clone())))),
            _ => None,
        },
        Op::ConstValue => match a {
            Some(Cell::Name(c)) => Some(Cell::Value(PtVal::Const(Const::of(c.clone())))),
            _ => None,
        },
        Op::Concrete => match a {
            Some(Cell::Value(v)) => if !v.is_path() {
                Some(Cell::Value(v.clone()))
            } else {
                None
            },
            _ => None,
        },
        Op::OfPath => match a {
            Some(Cell::Value(v)) => match v {
                PtVal::Path(w) => Some(Cell::Path(w.clone())),
                _ => None,
            },
            _ => None,
        },
        Op::OfAlloc => match a {
            Some(Cell::Value(v)) => match v {
                PtVal::Alloc(l) => Some(Cell::Name(l.text().clone())),
                _ => None,
            },
            _ => None,
        },
        Op::OfConst => match a {
            Some(Cell::Value(v)) => match v {
                PtVal::Const(x) => Some(Cell::Name(x.text().clone())),
                _ => None,
            },
            _ => None,
        },
    }
}

} // verus!
