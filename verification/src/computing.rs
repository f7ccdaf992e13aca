//! What the computations of the rules give.
use vstd::prelude::*;

use crate::access_path::{Instance, Path, Root, Step, Value};
use crate::cells::{Cell, Thing};
use crate::ir::Name;
use crate::ops::{apply, compute, seen, Op};
use crate::rules::crit_root;

verus! {

/// What an operation gives on one argument.
pub open spec fn on_one(op: Op, a: Thing) -> Option<Thing> {
    apply(op, Some(a), None, None, None)
}

/// What an operation gives on two arguments.
pub open spec fn on_two(op: Op, a: Thing, b: Thing) -> Option<Thing> {
    apply(op, Some(a), Some(b), None, None)
}

/// What an operation gives on three arguments.
pub open spec fn on_three(op: Op, a: Thing, b: Thing, c: Thing) -> Option<Thing> {
    apply(op, Some(a), Some(b), Some(c), None)
}

/// What is computed is what the operation gives.
pub proof fn law_computing_is_applying(
    op: Op,
    a: Option<&Cell>,
    b: Option<&Cell>,
    c: Option<&Cell>,
    d: Option<&Cell>,
    r: Option<Cell>,
)
    requires
        call_ensures(compute, (op, a, b, c, d), r),
    ensures
        r is Some <==> apply(op, seen(a), seen(b), seen(c), seen(d)) is Some,
        r matches Some(x) ==> apply(op, seen(a), seen(b), seen(c), seen(d)) == Some(x@),
        a matches Some(x) ==> seen(a) == Some(x@),
        a is None ==> seen(a) is None,
{
}

/// Numbers stand for themselves, and a number is several where it exceeds one.
pub proof fn law_numbers_are_given(n: usize)
    ensures
        apply(Op::Zero, None, None, None, None) == Some(Thing::Num(0)),
        apply(Op::One, None, None, None, None) == Some(Thing::Num(1)),
        apply(Op::Two, None, None, None, None) == Some(Thing::Num(2)),
        n > 1 ==> on_one(Op::Several, Thing::Num(n)) == Some(Thing::Num(n)),
        n <= 1 ==> on_one(Op::Several, Thing::Num(n)) is None,
{
}

/// Instances: a statement starts with no call string, a callsite is put around it, and one
/// string is put around another; the tests are on the length of the call string.
pub proof fn law_instances_are_given(s: Name, t: Name, id: Instance, at: Instance, k: usize)
    ensures
        on_one(Op::Origin, Thing::Name(s)) == Some(
            Thing::Inst(Instance { stmt: s, chain: Seq::empty() }),
        ),
        on_two(Op::Push, Thing::Inst(id), Thing::Name(t)) == Some(
            Thing::Inst(Instance { stmt: id.stmt, chain: id.chain.push(t) }),
        ),
        on_two(Op::Nest, Thing::Inst(id), Thing::Inst(at)) == Some(
            Thing::Inst(
                Instance { stmt: id.stmt, chain: id.chain.push(at.stmt) + at.chain },
            ),
        ),
        on_one(Op::StmtOf, Thing::Inst(id)) == Some(Thing::Name(id.stmt)),
        on_two(Op::Below, Thing::Inst(id), Thing::Num(k)) is Some <==> id.chain.len() < k,
        on_two(Op::AtLimit, Thing::Inst(id), Thing::Num(k)) is Some <==> id.chain.len() >= k,
        on_three(Op::NestsWithin, Thing::Inst(id), Thing::Inst(at), Thing::Num(k)) is Some
            <==> id.chain.len() + 1 + at.chain.len() <= k,
{
}

/// Roots are made of what they stand for, and one lands where resolving puts it.
pub proof fn law_roots_are_given(v: Name, p: Name, i: usize, id: Instance, r: Root, k: usize)
    ensures
        on_one(Op::VarRoot, Thing::Name(v)) == Some(Thing::Root(Root::Var(v))),
        on_two(Op::ParamRoot, Thing::Name(p), Thing::Num(i)) == Some(
            Thing::Root(Root::Param(p, i)),
        ),
        on_one(Op::RetRoot, Thing::Name(p)) == Some(Thing::Root(Root::Ret(p))),
        on_two(Op::SlotRoot, Thing::Inst(id), Thing::Num(i)) == Some(
            Thing::Root(Root::Slot(id, i)),
        ),
        on_one(Op::ResRoot, Thing::Inst(id)) == Some(Thing::Root(Root::Res(id))),
        apply(
            Op::CritRoot,
            Some(Thing::Name(p)),
            Some(Thing::Inst(id)),
            Some(Thing::Root(r)),
            Some(Thing::Num(k)),
        ) == (match crit_root(p, id, r, k as nat) {
            Some(to) => Some(Thing::Root(to)),
            None => None,
        }),
        crit_root(p, id, Root::Param(p, i), k as nat) == Some(Root::Slot(id, i)),
        crit_root(p, id, Root::Ret(p), k as nat) == Some(Root::Res(id)),
        crit_root(p, id, Root::Var(v), k as nat) is None,
{
}

/// Paths: a root alone, a path taken apart and put together again, one accessor further,
/// off another root, and as far beyond one path as another goes beyond its own.
pub proof fn law_paths_are_given(
    r: Root,
    w: Path,
    sub: Path,
    longer: Path,
    f: Name,
    a: Step,
    more: Seq<Step>,
)
    ensures
        on_one(Op::Bare, Thing::Root(r)) == Some(
            Thing::Path(Path { root: r, steps: Seq::empty() }),
        ),
        on_one(Op::RootOf, Thing::Path(w)) == Some(Thing::Root(w.root)),
        on_one(Op::StepsOf, Thing::Path(w)) == Some(Thing::Steps(w.steps)),
        on_one(Op::Symbolic, Thing::Path(w)) is Some <==> !(w.root is Var),
        on_two(Op::Rebase, Thing::Path(w), Thing::Root(r)) == Some(
            Thing::Path(Path { root: r, steps: w.steps }),
        ),
        on_two(Op::FieldOf, Thing::Path(w), Thing::Name(f)) == Some(
            Thing::Path(Path { root: w.root, steps: w.steps.push(Step::Field(f)) }),
        ),
        on_two(Op::IndexOf, Thing::Path(w), Thing::Name(f)) == Some(
            Thing::Path(Path { root: w.root, steps: w.steps.push(Step::Index(f)) }),
        ),
        on_two(Op::StepTo, Thing::Path(w), Thing::Step(a)) == Some(
            Thing::Path(Path { root: w.root, steps: w.steps.push(a) }),
        ),
        more.len() > 0 && longer == (Path { root: w.root, steps: w.steps + more }) ==> on_three(
            Op::Extend,
            Thing::Path(w),
            Thing::Path(sub),
            Thing::Path(longer),
        ) == Some(Thing::Path(Path { root: sub.root, steps: sub.steps + more })),
        longer.root != w.root || longer.steps.len() <= w.steps.len() ==> on_three(
            Op::Extend,
            Thing::Path(w),
            Thing::Path(sub),
            Thing::Path(longer),
        ) is None,
{
    if more.len() > 0 && longer == (Path { root: w.root, steps: w.steps + more }) {
        assert(longer.steps.skip(w.steps.len() as int) =~= more);
        assert(longer.steps.take(w.steps.len() as int) =~= w.steps);
        assert(longer.extends(w));
    }
}

/// Accessors and values: each is made of what it stands for and gives it back, a value is
/// concrete where it is a site or a constant, and nothing else is.
pub proof fn law_values_are_given(w: Path, l: Name, c: Name, v: Value)
    ensures
        on_one(Op::ByIndex, Thing::Name(c)) == Some(Thing::Step(Step::Index(c))),
        apply(Op::ByUnknown, None, None, None, None) == Some(Thing::Step(Step::Unknown)),
        on_one(Op::PathValue, Thing::Path(w)) == Some(Thing::Value(Value::Path(w))),
        on_one(Op::AllocValue, Thing::Name(l)) == Some(Thing::Value(Value::Alloc(l))),
        on_one(Op::ConstValue, Thing::Name(c)) == Some(Thing::Value(Value::Const(c))),
        on_one(Op::Concrete, Thing::Value(Value::Alloc(l))) is Some,
        on_one(Op::Concrete, Thing::Value(Value::Const(c))) is Some,
        on_one(Op::Concrete, Thing::Value(Value::Path(w))) is None,
        on_one(Op::OfPath, Thing::Value(Value::Path(w))) == Some(Thing::Path(w)),
        on_one(Op::OfAlloc, Thing::Value(Value::Alloc(l))) == Some(Thing::Name(l)),
        on_one(Op::OfConst, Thing::Value(Value::Const(c))) == Some(Thing::Name(c)),
        on_one(Op::OfPath, Thing::Value(v)) is Some <==> v is Path,
        on_one(Op::OfAlloc, Thing::Value(v)) is Some <==> v is Alloc,
        on_one(Op::OfConst, Thing::Value(v)) is Some <==> v is Const,
{
}

} // verus!
