//! Parametric families of programs, for measuring how the analysis scales.
//!
//! Each generator turns one integer knob into a program of the same shape, so
//! that fitting the size of a relation against the size of the program says
//! something about the relation rather than about one hand-written example. The
//! families separate the axes the analysis can blow up along:
//!
//! | family | axis it stresses |
//! |--------|------------------|
//! | [`chain`] | propagation depth: one critical statement, `n` callers above it |
//! | [`fanin`] | call-graph fan-in: one critical procedure, `m` distinct callers |
//! | [`branching`] | call-string count: every level reachable by two paths |
//! | [`targets`] | dispatch width: one critical call with `t` implementations |
//! | [`alias`] | points-to pressure: `n` allocations merged into `n` variables |
//! | [`fields`] | access-path suffix congruence inside one procedure |
//! | [`fields_chain`] | access-path *length* growing through inlining |
//! | [`recursive_field`] | termination when inlining feeds its own summary |
//! | [`dead_receiver`] | the vacuous corner of adequacy: an empty deciding operand |
//! | [`wide`] | many procedures with real data flow and nothing critical |
use vstd::prelude::*;

use crate::ir::{Name, Program};
use crate::sheet::{texts, written, Builder, Sheet};
use crate::text::{cat, cat3, decimal, numbered};

verus! {

/// Two strings.
fn two(a: String, b: String) -> (r: Vec<String>)
    ensures
        texts(r@) == seq![a@, b@],
{
    let r: Vec<String> = vec![a, b];
    proof {
        assert(texts(r@) =~= seq![a@, b@]);
    }
    r
}

fn three(a: String, b: String, c: String) -> (r: Vec<String>)
    ensures
        texts(r@) == seq![a@, b@, c@],
{
    let r: Vec<String> = vec![a, b, c];
    proof {
        assert(texts(r@) =~= seq![a@, b@, c@]);
    }
    r
}

fn one(a: &str) -> (r: Vec<String>)
    ensures
        texts(r@) == seq![a@],
{
    let r: Vec<String> = vec![a.to_owned()];
    proof {
        assert(texts(r@) =~= seq![a@]);
    }
    r
}

// ---------------------------------------------------------------------------
// Common pieces
// ---------------------------------------------------------------------------

/// Class `j` with its implementation of `poly(Obj)`. The first is the identity, the
/// rest each allocate, so that the callees are distinguishable.
pub open spec fn with_class(s: Sheet, j: nat) -> Sheet {
    let ty = "C"@ + decimal(j);
    let imp = ty + ".poly"@;
    let this = "this@"@ + imp;
    let obj = "obj@"@ + imp;
    let head = s.implements(ty, imp).proc(imp, seq![this, obj]);
    if j == 0 {
        head.ret(imp, obj)
    } else {
        head.new_object("A@"@ + imp, imp, "t@"@ + imp, "l@"@ + imp, "Obj"@).ret(imp, "t@"@ + imp)
    }
}

/// The first `n` classes.
pub open spec fn with_classes(s: Sheet, n: nat) -> Sheet
    decreases n,
{
    if n == 0 {
        s
    } else {
        with_class(with_classes(s, (n - 1) as nat), (n - 1) as nat)
    }
}

/// The critical procedure every call-shaped family is built around:
/// `P0(this, x, obj) { return x.poly(obj) }`.
pub open spec fn with_leaf(s: Sheet) -> Sheet {
    s.proc("P0"@, seq!["this@P0"@, "x@P0"@, "obj@P0"@]).vcall(
        "S0"@,
        "P0"@,
        "x@P0"@,
        "poly(Obj)"@,
        seq!["x@P0"@, "obj@P0"@],
        "r@P0"@,
    ).ret("P0"@, "r@P0"@)
}

/// The entry of the call-shaped families: it pins the receiver and calls `top`.
pub open spec fn with_entry(s: Sheet, top: Name) -> Sheet {
    s.proc("Entry"@, seq!["this@Entry"@]).new_object(
        "E0"@,
        "Entry"@,
        "first"@,
        "lfirst"@,
        "Obj"@,
    ).new_object("E1"@, "Entry"@, "recv"@, "lrecv"@, "C0"@).call(
        "E2"@,
        "Entry"@,
        top,
        seq!["this@Entry"@, "recv"@, "first"@],
        "res"@,
    ).entry("Entry"@)
}

fn add_class(b: &mut Builder, j: usize)
    requires
        old(b).ok(),
    ensures
        final(b).ok(),
        final(b).sheet() == with_class(old(b).sheet(), j as nat),
{
    let ty = numbered("C", j);
    let imp = cat(ty.as_str(), ".poly");
    b.implements(ty.as_str(), imp.as_str());
    let this = cat("this@", imp.as_str());
    let obj = cat("obj@", imp.as_str());
    let formals = two(this, cat("obj@", imp.as_str()));
    b.proc(imp.as_str(), &formals);
    if j == 0 {
        b.ret(imp.as_str(), obj.as_str());
    } else {
        let st = cat("A@", imp.as_str());
        let t = cat("t@", imp.as_str());
        let site = cat("l@", imp.as_str());
        b.new_object(st.as_str(), imp.as_str(), t.as_str(), site.as_str(), "Obj");
        b.ret(imp.as_str(), t.as_str());
    }
}

fn add_classes(b: &mut Builder, n: usize)
    requires
        old(b).ok(),
    ensures
        final(b).ok(),
        final(b).sheet() == with_classes(old(b).sheet(), n as nat),
{
    let ghost start = b.sheet();
    let mut j: usize = 0;
    while j < n
        invariant
            j <= n,
            b.ok(),
            b.sheet() == with_classes(start, j as nat),
        decreases n - j,
    {
        add_class(b, j);
        j += 1;
    }
}

fn add_leaf(b: &mut Builder)
    requires
        old(b).ok(),
    ensures
        final(b).ok(),
        final(b).sheet() == with_leaf(old(b).sheet()),
{
    let formals = three("this@P0".to_owned(), "x@P0".to_owned(), "obj@P0".to_owned());
    b.proc("P0", &formals);
    let args = two("x@P0".to_owned(), "obj@P0".to_owned());
    b.vcall("S0", "P0", "x@P0", "poly(Obj)", &args, "r@P0");
    b.ret("P0", "r@P0");
}

fn add_entry(b: &mut Builder, top: &str)
    requires
        old(b).ok(),
    ensures
        final(b).ok(),
        final(b).sheet() == with_entry(old(b).sheet(), top@),
{
    b.proc("Entry", &one("this@Entry"));
    b.new_object("E0", "Entry", "first", "lfirst", "Obj");
    b.new_object("E1", "Entry", "recv", "lrecv", "C0");
    let args = three("this@Entry".to_owned(), "recv".to_owned(), "first".to_owned());
    b.call("E2", "Entry", top, &args, "res");
    b.entry("Entry");
}

/// The formals of a procedure that only passes its arguments on.
pub open spec fn passed(me: Name) -> Seq<Name> {
    seq!["this@"@ + me, "x@"@ + me, "obj@"@ + me]
}

fn passed_names(me: &str) -> (r: Vec<String>)
    ensures
        texts(r@) == passed(me@),
{
    three(cat("this@", me), cat("x@", me), cat("obj@", me))
}

// ---------------------------------------------------------------------------
// The families
// ---------------------------------------------------------------------------

/// How many facts of the kinds that grow with a program it has.
pub open spec fn fact_count(prog: Program) -> nat {
    prog.procedure@.len() + prog.in_proc@.len() + prog.alloc@.len() + prog.mov@.len()
        + prog.load_field@.len() + prog.store_field@.len() + prog.direct_call@.len()
        + prog.virtual_call@.len() + prog.actual_arg@.len() + prog.bind_ret@.len()
        + prog.formal@.len() + prog.ret@.len() + prog.lookup@.len()
}

/// Fact count, the stand-in for "size of the program".
pub fn edb_size(prog: &Program) -> (r: usize)
    requires
        fact_count(*prog) <= usize::MAX,
    ensures
        r == fact_count(*prog),
{
    prog.procedure.len() + prog.in_proc.len() + prog.alloc.len() + prog.mov.len()
        + prog.load_field.len() + prog.store_field.len() + prog.direct_call.len()
        + prog.virtual_call.len() + prog.actual_arg.len() + prog.bind_ret.len()
        + prog.formal.len() + prog.ret.len() + prog.lookup.len()
}

/// `P_i`, which returns what `P_{i-1}` returns.
pub open spec fn with_caller(s: Sheet, i: nat) -> Sheet {
    let me = "P"@ + decimal(i);
    let below = "P"@ + decimal((i - 1) as nat);
    s.proc(me, passed(me)).call("S"@ + decimal(i), me, below, passed(me), "r@"@ + me).ret(
        me,
        "r@"@ + me,
    )
}

pub open spec fn with_callers(s: Sheet, n: nat) -> Sheet
    decreases n,
{
    if n == 0 {
        s
    } else {
        with_caller(with_callers(s, (n - 1) as nat), n)
    }
}

pub open spec fn chain_sheet(n: nat, targets: nat) -> Sheet {
    with_entry(
        with_callers(with_leaf(with_classes(Sheet::blank(), targets)), n),
        "P"@ + decimal(n),
    )
}

/// A linear call chain of `n` procedures above one critical virtual call, made as
/// long as we like. The receiver is pinned at the top, so with a k-limit of more
/// than `n` the placeholder propagates the whole way and is resolved exactly once. (An
/// instance moves on only while its call string is shorter than the limit.)
pub fn chain(n: usize, targets: usize) -> (r: Program)
    ensures
        written(r, chain_sheet(n as nat, targets as nat)),
{
    let mut b = Builder::new();
    add_classes(&mut b, targets);
    add_leaf(&mut b);
    let ghost start = b.sheet();
    let mut i: usize = 0;
    while i < n
        invariant
            i <= n,
            b.ok(),
            b.sheet() == with_callers(start, i as nat),
        decreases n - i,
    {
        let below = numbered("P", i);
        i += 1;
        let me = numbered("P", i);
        let st = numbered("S", i);
        let res = cat("r@", me.as_str());
        b.proc(me.as_str(), &passed_names(me.as_str()));
        b.call(
            st.as_str(),
            me.as_str(),
            below.as_str(),
            &passed_names(me.as_str()),
            res.as_str(),
        );
        b.ret(me.as_str(), res.as_str());
    }
    let top = numbered("P", n);
    add_entry(&mut b, top.as_str());
    b.prog
}

/// One critical call with `t` implementations, and a single caller above it.
pub fn targets(t: usize) -> (r: Program)
    ensures
        written(r, chain_sheet(1, t as nat)),
{
    chain(1, t)
}

/// `B_i`, which pins the receiver of `P0` to its own class, and the call of it.
pub open spec fn with_feeder(s: Sheet, i: nat, targets: nat) -> Sheet {
    let me = "B"@ + decimal(i);
    let this = "this@"@ + me;
    let obj = "obj@"@ + me;
    let t = "t@"@ + me;
    s.proc(me, seq![this, obj]).new_object(
        "A@"@ + me,
        me,
        t,
        "l@"@ + me,
        "C"@ + decimal(i % targets),
    ).call("C@"@ + me, me, "P0"@, seq![this, t, obj], "r@"@ + me).ret(me, "r@"@ + me).call(
        "E@"@ + decimal(i),
        "Entry"@,
        me,
        seq!["this@Entry"@, "first"@],
        "res"@ + decimal(i),
    )
}

pub open spec fn with_feeders(s: Sheet, n: nat, targets: nat) -> Sheet
    decreases n,
{
    if n == 0 {
        s
    } else {
        with_feeder(with_feeders(s, (n - 1) as nat, targets), (n - 1) as nat, targets)
    }
}

pub open spec fn fanin_sheet(m: nat, targets: nat) -> Sheet {
    let start = with_leaf(with_classes(Sheet::blank(), targets)).proc(
        "Entry"@,
        seq!["this@Entry"@],
    ).new_object("E0"@, "Entry"@, "first"@, "lfirst"@, "Obj"@);
    with_feeders(start, m, targets).entry("Entry"@)
}

/// `m` distinct callers of one critical procedure, each pinning a different
/// receiver type: fan-in rather than depth.
pub fn fanin(m: usize, targets: usize) -> (r: Program)
    requires
        targets > 0 || m == 0,
    ensures
        written(r, fanin_sheet(m as nat, targets as nat)),
{
    let mut b = Builder::new();
    add_classes(&mut b, targets);
    add_leaf(&mut b);
    b.proc("Entry", &one("this@Entry"));
    b.new_object("E0", "Entry", "first", "lfirst", "Obj");
    let ghost start = b.sheet();
    let mut i: usize = 0;
    while i < m
        invariant
            i <= m,
            targets > 0 || m == 0,
            b.ok(),
            b.sheet() == with_feeders(start, i as nat, targets as nat),
        decreases m - i,
    {
        let me = numbered("B", i);
        let this = cat("this@", me.as_str());
        let obj = cat("obj@", me.as_str());
        let t = cat("t@", me.as_str());
        let res = cat("r@", me.as_str());
        b.proc(me.as_str(), &two(this.clone(), obj.clone()));
        let made = cat("A@", me.as_str());
        let site = cat("l@", me.as_str());
        let kind = numbered("C", i % targets);
        b.new_object(made.as_str(), me.as_str(), t.as_str(), site.as_str(), kind.as_str());
        let st = cat("C@", me.as_str());
        b.call(st.as_str(), me.as_str(), "P0", &three(this, t, obj), res.as_str());
        b.ret(me.as_str(), res.as_str());
        let top = numbered("E@", i);
        let out = numbered("res", i);
        let args = two("this@Entry".to_owned(), "first".to_owned());
        b.call(top.as_str(), "Entry", me.as_str(), &args, out.as_str());
        i += 1;
    }
    b.entry("Entry");
    b.prog
}

/// One of the two calls of a level.
pub open spec fn with_side(s: Sheet, i: nat, side: Name) -> Sheet {
    let me = "P"@ + decimal(i);
    let below = "P"@ + decimal((i - 1) as nat);
    let res = "r"@ + side + ("@"@ + me);
    s.call("S"@ + decimal(i) + side, me, below, passed(me), res).ret(me, res)
}

/// `P_i`, which calls `P_{i-1}` from two statements.
pub open spec fn with_fork(s: Sheet, i: nat) -> Sheet {
    let me = "P"@ + decimal(i);
    with_side(with_side(s.proc(me, passed(me)), i, "a"@), i, "b"@)
}

pub open spec fn with_forks(s: Sheet, n: nat) -> Sheet
    decreases n,
{
    if n == 0 {
        s
    } else {
        with_fork(with_forks(s, (n - 1) as nat), n)
    }
}

pub open spec fn branching_sheet(d: nat, targets: nat) -> Sheet {
    with_entry(
        with_forks(with_leaf(with_classes(Sheet::blank(), targets)), d),
        "P"@ + decimal(d),
    )
}

fn add_side(b: &mut Builder, i: usize, side: &str)
    requires
        old(b).ok(),
        i > 0,
    ensures
        final(b).ok(),
        final(b).sheet() == with_side(old(b).sheet(), i as nat, side@),
{
    let me = numbered("P", i);
    let below = numbered("P", i - 1);
    let st = cat(numbered("S", i).as_str(), side);
    let res = cat3("r", side, cat("@", me.as_str()).as_str());
    b.call(st.as_str(), me.as_str(), below.as_str(), &passed_names(me.as_str()), res.as_str());
    b.ret(me.as_str(), res.as_str());
}

/// A chain of depth `d` in which every level calls the level below it from *two*
/// statements. The program grows linearly in `d`, but the number of call strings of
/// length `d`, and so the number of pending instances, doubles per level.
pub fn branching(d: usize, targets: usize) -> (r: Program)
    ensures
        written(r, branching_sheet(d as nat, targets as nat)),
{
    let mut b = Builder::new();
    add_classes(&mut b, targets);
    add_leaf(&mut b);
    let ghost start = b.sheet();
    let mut i: usize = 0;
    while i < d
        invariant
            i <= d,
            b.ok(),
            b.sheet() == with_forks(start, i as nat),
        decreases d - i,
    {
        i += 1;
        let me = numbered("P", i);
        b.proc(me.as_str(), &passed_names(me.as_str()));
        add_side(&mut b, i, "a");
        add_side(&mut b, i, "b");
    }
    let top = numbered("P", d);
    add_entry(&mut b, top.as_str());
    b.prog
}

pub open spec fn with_objects(s: Sheet, n: nat) -> Sheet
    decreases n,
{
    if n == 0 {
        s
    } else {
        let i = decimal((n - 1) as nat);
        with_objects(s, (n - 1) as nat).new_object("A"@ + i, "M"@, "a"@ + i, "l"@ + i, "Obj"@)
    }
}

/// Merges `1`, ..., `n`: each takes the merge before it and one more object.
pub open spec fn with_merges(s: Sheet, n: nat) -> Sheet
    decreases n,
{
    if n == 0 {
        s
    } else {
        let i = decimal(n);
        let before = decimal((n - 1) as nat);
        with_merges(s, (n - 1) as nat).mov("Mc"@ + i, "M"@, "c"@ + i, "c"@ + before).mov(
            "Ma"@ + i,
            "M"@,
            "c"@ + i,
            "a"@ + i,
        )
    }
}

/// One less, but not below zero.
pub open spec fn less_one(n: nat) -> nat {
    if n == 0 {
        0
    } else {
        (n - 1) as nat
    }
}

pub open spec fn alias_sheet(n: nat) -> Sheet {
    let start = with_objects(Sheet::blank().proc("M"@, seq!["this@M"@]), n).mov(
        "M0"@,
        "M"@,
        "c0"@,
        "a0"@,
    );
    with_merges(start, less_one(n)).ret("M"@, "c"@ + decimal(less_one(n))).entry("M"@)
}

/// No calls and no critical statements: `n` allocations merged into a chain of `n`
/// variables. Pure points-to pressure, the classic product of variables and
/// allocations.
pub fn alias(n: usize) -> (r: Program)
    ensures
        written(r, alias_sheet(n as nat)),
{
    let mut b = Builder::new();
    b.proc("M", &one("this@M"));
    let ghost start = b.sheet();
    let mut i: usize = 0;
    while i < n
        invariant
            i <= n,
            b.ok(),
            b.sheet() == with_objects(start, i as nat),
        decreases n - i,
    {
        let st = numbered("A", i);
        let var = numbered("a", i);
        let site = numbered("l", i);
        b.new_object(st.as_str(), "M", var.as_str(), site.as_str(), "Obj");
        i += 1;
    }
    b.mov("M0", "M", "c0", "a0");
    let ghost middle = b.sheet();
    let last: usize = if n == 0 {
        0
    } else {
        n - 1
    };
    i = 0;
    while i < last
        invariant
            i <= last,
            b.ok(),
            b.sheet() == with_merges(middle, i as nat),
        decreases last - i,
    {
        let before = numbered("c", i);
        i += 1;
        let to = numbered("c", i);
        let from = numbered("a", i);
        let first = numbered("Mc", i);
        let second = numbered("Ma", i);
        b.mov(first.as_str(), "M", to.as_str(), before.as_str());
        b.mov(second.as_str(), "M", to.as_str(), from.as_str());
    }
    let out = numbered("c", last);
    b.ret("M", out.as_str());
    b.entry("M");
    b.prog
}

pub open spec fn with_loads(s: Sheet, n: nat) -> Sheet
    decreases n,
{
    if n == 0 {
        s
    } else {
        let i = decimal(n);
        with_loads(s, (n - 1) as nat).load_field(
            "F"@ + i,
            "F"@,
            "y"@ + i,
            "y"@ + decimal((n - 1) as nat),
            "f"@ + i,
        )
    }
}

pub open spec fn fields_sheet(n: nat) -> Sheet {
    let start = Sheet::blank().proc("F"@, seq!["this@F"@, "x@F"@]).mov(
        "F0"@,
        "F"@,
        "y0"@,
        "x@F"@,
    );
    with_loads(start, n).ret("F"@, "y"@ + decimal(n)).entry("F"@)
}

/// A chain of `n` *distinct* field loads off a parameter, all inside one procedure:
/// stresses the suffix-congruence rules.
pub fn fields(n: usize) -> (r: Program)
    ensures
        written(r, fields_sheet(n as nat)),
{
    let mut b = Builder::new();
    b.proc("F", &two("this@F".to_owned(), "x@F".to_owned()));
    b.mov("F0", "F", "y0", "x@F");
    let ghost start = b.sheet();
    let mut i: usize = 0;
    while i < n
        invariant
            i <= n,
            b.ok(),
            b.sheet() == with_loads(start, i as nat),
        decreases n - i,
    {
        let base = numbered("y", i);
        i += 1;
        let st = numbered("F", i);
        let to = numbered("y", i);
        let f = numbered("f", i);
        b.load_field(st.as_str(), "F", to.as_str(), base.as_str(), f.as_str());
    }
    let out = numbered("y", n);
    b.ret("F", out.as_str());
    b.entry("F");
    b.prog
}

/// `P_i(x) { t = P_{i-1}(x); return t.f_i }`.
pub open spec fn with_reader(s: Sheet, i: nat) -> Sheet {
    let me = "P"@ + decimal(i);
    let below = "P"@ + decimal((i - 1) as nat);
    let formals = seq!["this@"@ + me, "x@"@ + me];
    s.proc(me, formals).call("C"@ + decimal(i), me, below, formals, "t@"@ + me).load_field(
        "S"@ + decimal(i),
        me,
        "y@"@ + me,
        "t@"@ + me,
        "f"@ + decimal(i),
    ).ret(me, "y@"@ + me)
}

pub open spec fn with_readers(s: Sheet, n: nat) -> Sheet
    decreases n,
{
    if n == 0 {
        s
    } else {
        with_reader(with_readers(s, (n - 1) as nat), n)
    }
}

/// The entry of the families without a receiver: it makes an object and passes it.
pub open spec fn with_call_of(s: Sheet, top: Name) -> Sheet {
    s.proc("Entry"@, seq!["this@Entry"@]).new_object("E0"@, "Entry"@, "o"@, "lo"@, "Obj"@).call(
        "E1"@,
        "Entry"@,
        top,
        seq!["this@Entry"@, "o"@],
        "res"@,
    ).entry("Entry"@)
}

fn add_call_of(b: &mut Builder, top: &str)
    requires
        old(b).ok(),
    ensures
        final(b).ok(),
        final(b).sheet() == with_call_of(old(b).sheet(), top@),
{
    b.proc("Entry", &one("this@Entry"));
    b.new_object("E0", "Entry", "o", "lo", "Obj");
    b.call("E1", "Entry", top, &two("this@Entry".to_owned(), "o".to_owned()), "res");
    b.entry("Entry");
}

pub open spec fn fields_chain_sheet(n: nat) -> Sheet {
    let start = Sheet::blank().proc("P0"@, seq!["this@P0"@, "x@P0"@]).load_field(
        "S0"@,
        "P0"@,
        "y@P0"@,
        "x@P0"@,
        "f0"@,
    ).ret("P0"@, "y@P0"@);
    with_call_of(with_readers(start, n), "P"@ + decimal(n))
}

/// `P0(x) { return x.f0 }`, `P_i(x) { t = P_{i-1}(x); return t.f_i }`. Under a vocabulary
/// that admits it, the access path of each summary is one accessor longer than the
/// callee's. The default bound admits no path of two: no procedure reads twice, and it
/// concatenates within a procedure only.
pub fn fields_chain(n: usize) -> (r: Program)
    ensures
        written(r, fields_chain_sheet(n as nat)),
{
    let mut b = Builder::new();
    b.proc("P0", &two("this@P0".to_owned(), "x@P0".to_owned()));
    b.load_field("S0", "P0", "y@P0", "x@P0", "f0");
    b.ret("P0", "y@P0");
    let ghost start = b.sheet();
    let mut i: usize = 0;
    while i < n
        invariant
            i <= n,
            b.ok(),
            b.sheet() == with_readers(start, i as nat),
        decreases n - i,
    {
        let below = numbered("P", i);
        i += 1;
        let me = numbered("P", i);
        let formals = two(cat("this@", me.as_str()), cat("x@", me.as_str()));
        b.proc(me.as_str(), &formals);
        let st = numbered("C", i);
        let t = cat("t@", me.as_str());
        b.call(st.as_str(), me.as_str(), below.as_str(), &formals, t.as_str());
        let load = numbered("S", i);
        let y = cat("y@", me.as_str());
        let f = numbered("f", i);
        b.load_field(load.as_str(), me.as_str(), y.as_str(), t.as_str(), f.as_str());
        b.ret(me.as_str(), y.as_str());
    }
    let top = numbered("P", n);
    add_call_of(&mut b, top.as_str());
    b.prog
}

pub open spec fn dead_receiver_sheet() -> Sheet {
    let s = with_classes(Sheet::blank(), 2).proc("V"@, seq!["this@V"@, "obj@V"@]).vcall(
        "S"@,
        "V"@,
        "x@V"@,
        "poly(Obj)"@,
        seq!["x@V"@, "obj@V"@],
        "r@V"@,
    ).ret("V"@, "r@V"@);
    with_call_of(s, "V"@)
}

/// A critical statement whose deciding operand has *no* reaching definition: `x@V` is
/// never assigned, so its points-to set is empty and the receiver of `x.poly(obj)` is
/// decided by nothing at all.
pub fn dead_receiver() -> (r: Program)
    ensures
        written(r, dead_receiver_sheet()),
{
    let mut b = Builder::new();
    add_classes(&mut b, 2);
    b.proc("V", &two("this@V".to_owned(), "obj@V".to_owned()));
    let args = two("x@V".to_owned(), "obj@V".to_owned());
    b.vcall("S", "V", "x@V", "poly(Obj)", &args, "r@V");
    b.ret("V", "r@V");
    add_call_of(&mut b, "V");
    b.prog
}

pub open spec fn recursive_field_sheet() -> Sheet {
    let s = Sheet::blank().proc("P"@, seq!["this@P"@, "x@P"@]).load_field(
        "S1"@,
        "P"@,
        "y@P"@,
        "x@P"@,
        "f"@,
    ).call("S2"@, "P"@, "P"@, seq!["this@P"@, "y@P"@], "r@P"@).ret("P"@, "r@P"@);
    with_call_of(s, "P"@)
}

/// `P(x) { y = x.f; return P(y) }`: direct recursion whose summary, inlined into
/// itself, would append `.f` on every round.
pub fn recursive_field() -> (r: Program)
    ensures
        written(r, recursive_field_sheet()),
{
    let mut b = Builder::new();
    b.proc("P", &two("this@P".to_owned(), "x@P".to_owned()));
    b.load_field("S1", "P", "y@P", "x@P", "f");
    b.call("S2", "P", "P", &two("this@P".to_owned(), "y@P".to_owned()), "r@P");
    b.ret("P", "r@P");
    add_call_of(&mut b, "P");
    b.prog
}

// -- the wide family ---------------------------------------------------------------

/// How many leaves a mid-level caller has.
pub const GROUP: usize = 4;

/// A name of a leaf or of a mid-level caller.
pub open spec fn local(prefix: Name, i: nat, owner: Name) -> Name {
    prefix + decimal(i) + ("@"@ + owner)
}

fn local_name(prefix: &str, i: usize, owner: &str) -> (r: String)
    ensures
        r@ == local(prefix@, i as nat, owner@),
{
    cat(numbered(prefix, i).as_str(), cat("@", owner).as_str())
}

pub open spec fn with_leaf_objects(s: Sheet, me: Name, w: nat) -> Sheet
    decreases w,
{
    if w == 0 {
        s
    } else {
        let j = (w - 1) as nat;
        with_leaf_objects(s, me, j).new_object(
            local("A"@, j, me),
            me,
            local("a"@, j, me),
            local("l"@, j, me),
            "Obj"@,
        )
    }
}

pub open spec fn with_leaf_merges(s: Sheet, me: Name, n: nat) -> Sheet
    decreases n,
{
    if n == 0 {
        s
    } else {
        with_leaf_merges(s, me, (n - 1) as nat).mov(
            local("Mc"@, n, me),
            me,
            local("c"@, n, me),
            local("c"@, (n - 1) as nat, me),
        ).mov(local("Ma"@, n, me), me, local("c"@, n, me), local("a"@, n, me))
    }
}

/// `W_i`, which merges `w` objects into `w` variables, its parameter first.
pub open spec fn with_wide_leaf(s: Sheet, i: nat, w: nat) -> Sheet {
    let me = "W"@ + decimal(i);
    let start = with_leaf_objects(s.proc(me, seq!["this@"@ + me, "x@"@ + me]), me, w).mov(
        "M0@"@ + me,
        me,
        "c0@"@ + me,
        "x@"@ + me,
    );
    with_leaf_merges(start, me, less_one(w)).ret(me, local("c"@, less_one(w), me))
}

pub open spec fn with_wide_leaves(s: Sheet, m: nat, w: nat) -> Sheet
    decreases m,
{
    if m == 0 {
        s
    } else {
        with_wide_leaf(with_wide_leaves(s, (m - 1) as nat, w), (m - 1) as nat, w)
    }
}

/// `D_j` calls the leaves from `lo` up to `hi` and merges their results.
pub open spec fn with_mid_calls(s: Sheet, me: Name, lo: nat, hi: nat) -> Sheet
    decreases hi,
{
    if hi <= lo {
        s
    } else {
        let i = (hi - 1) as nat;
        with_mid_calls(s, me, lo, i).call(
            local("C"@, i, me),
            me,
            "W"@ + decimal(i),
            seq!["this@"@ + me, "x@"@ + me],
            local("r"@, i, me),
        ).mov(local("Mr"@, i, me), me, "acc@"@ + me, local("r"@, i, me))
    }
}

pub open spec fn with_mid(s: Sheet, j: nat, m: nat) -> Sheet {
    let me = "D"@ + decimal(j);
    let lo = j * GROUP as nat;
    let hi = if lo + GROUP as nat <= m {
        lo + GROUP as nat
    } else {
        m
    };
    with_mid_calls(s.proc(me, seq!["this@"@ + me, "x@"@ + me]), me, lo, hi).ret(me, "acc@"@ + me)
}

pub open spec fn with_mids(s: Sheet, n: nat, m: nat) -> Sheet
    decreases n,
{
    if n == 0 {
        s
    } else {
        with_mid(with_mids(s, (n - 1) as nat, m), (n - 1) as nat, m)
    }
}

pub open spec fn with_top_calls(s: Sheet, n: nat) -> Sheet
    decreases n,
{
    if n == 0 {
        s
    } else {
        let j = decimal((n - 1) as nat);
        with_top_calls(s, (n - 1) as nat).call(
            "E@"@ + j,
            "Entry"@,
            "D"@ + j,
            seq!["this@Entry"@, "o"@],
            "r"@ + j,
        ).mov("Em@"@ + j, "Entry"@, "res"@, "r"@ + j)
    }
}

/// How many groups `m` leaves make.
pub open spec fn mid_count(m: nat) -> nat {
    (m / GROUP as nat) + (if m % GROUP as nat == 0 {
        0nat
    } else {
        1nat
    })
}

pub open spec fn wide_sheet(m: nat, w: nat) -> Sheet {
    let n = mid_count(m);
    let start = with_mids(with_wide_leaves(Sheet::blank(), m, w), n, m).proc(
        "Entry"@,
        seq!["this@Entry"@],
    ).new_object("E0"@, "Entry"@, "o"@, "lo"@, "Obj"@);
    with_top_calls(start, n).entry("Entry"@)
}

fn add_wide_leaf(b: &mut Builder, i: usize, w: usize)
    requires
        old(b).ok(),
    ensures
        final(b).ok(),
        final(b).sheet() == with_wide_leaf(old(b).sheet(), i as nat, w as nat),
{
    let me = numbered("W", i);
    let x = cat("x@", me.as_str());
    b.proc(me.as_str(), &two(cat("this@", me.as_str()), cat("x@", me.as_str())));
    let ghost start = b.sheet();
    let mut j: usize = 0;
    while j < w
        invariant
            j <= w,
            b.ok(),
            b.sheet() == with_leaf_objects(start, me@, j as nat),
        decreases w - j,
    {
        let st = local_name("A", j, me.as_str());
        let var = local_name("a", j, me.as_str());
        let site = local_name("l", j, me.as_str());
        b.new_object(st.as_str(), me.as_str(), var.as_str(), site.as_str(), "Obj");
        j += 1;
    }
    let first = cat("M0@", me.as_str());
    let c0 = cat("c0@", me.as_str());
    b.mov(first.as_str(), me.as_str(), c0.as_str(), x.as_str());
    let ghost middle = b.sheet();
    let last: usize = if w == 0 {
        0
    } else {
        w - 1
    };
    j = 0;
    while j < last
        invariant
            j <= last,
            b.ok(),
            b.sheet() == with_leaf_merges(middle, me@, j as nat),
        decreases last - j,
    {
        let before = local_name("c", j, me.as_str());
        j += 1;
        let to = local_name("c", j, me.as_str());
        let from = local_name("a", j, me.as_str());
        let first = local_name("Mc", j, me.as_str());
        let second = local_name("Ma", j, me.as_str());
        b.mov(first.as_str(), me.as_str(), to.as_str(), before.as_str());
        b.mov(second.as_str(), me.as_str(), to.as_str(), from.as_str());
    }
    let out = local_name("c", last, me.as_str());
    b.ret(me.as_str(), out.as_str());
}

fn add_mid(b: &mut Builder, j: usize, m: usize)
    requires
        old(b).ok(),
        j * GROUP <= m,
    ensures
        final(b).ok(),
        final(b).sheet() == with_mid(old(b).sheet(), j as nat, m as nat),
{
    let me = numbered("D", j);
    let acc = cat("acc@", me.as_str());
    b.proc(me.as_str(), &two(cat("this@", me.as_str()), cat("x@", me.as_str())));
    let ghost start = b.sheet();
    let lo: usize = j * GROUP;
    let hi: usize = if m - lo >= GROUP {
        lo + GROUP
    } else {
        m
    };
    let mut i: usize = lo;
    while i < hi
        invariant
            lo <= i <= hi,
            acc@ == "acc@"@ + me@,
            b.ok(),
            b.sheet() == with_mid_calls(start, me@, lo as nat, i as nat),
        decreases hi - i,
    {
        let st = local_name("C", i, me.as_str());
        let callee = numbered("W", i);
        let res = local_name("r", i, me.as_str());
        let args = two(cat("this@", me.as_str()), cat("x@", me.as_str()));
        b.call(st.as_str(), me.as_str(), callee.as_str(), &args, res.as_str());
        let merge = local_name("Mr", i, me.as_str());
        b.mov(merge.as_str(), me.as_str(), acc.as_str(), res.as_str());
        i += 1;
    }
    b.ret(me.as_str(), acc.as_str());
}

/// Many procedures, wide interprocedural data flow, **nothing critical**.
///
/// `m` leaf procedures each merge `w` allocations into `w` variables with the
/// parameter seeded into the chain, so that every leaf has a quadratic local closure
/// *and* a summary its callers must inline. The leaves are grouped four at a time
/// under mid-level callers that merge their results, and `Entry` merges the mids.
pub fn wide(m: usize, w: usize) -> (r: Program)
    ensures
        written(r, wide_sheet(m as nat, w as nat)),
{
    let mut b = Builder::new();
    let mut i: usize = 0;
    while i < m
        invariant
            i <= m,
            b.ok(),
            b.sheet() == with_wide_leaves(Sheet::blank(), i as nat, w as nat),
        decreases m - i,
    {
        add_wide_leaf(&mut b, i, w);
        i += 1;
    }
    let ghost start = b.sheet();
    let mids: usize = m / GROUP + (if m % GROUP == 0 {
        0
    } else {
        1
    });
    let mut j: usize = 0;
    while j < mids
        invariant
            j <= mids,
            mids == mid_count(m as nat),
            b.ok(),
            b.sheet() == with_mids(start, j as nat, m as nat),
        decreases mids - j,
    {
        add_mid(&mut b, j, m);
        j += 1;
    }
    b.proc("Entry", &one("this@Entry"));
    b.new_object("E0", "Entry", "o", "lo", "Obj");
    let ghost middle = b.sheet();
    j = 0;
    while j < mids
        invariant
            j <= mids,
            b.ok(),
            b.sheet() == with_top_calls(middle, j as nat),
        decreases mids - j,
    {
        let st = numbered("E@", j);
        let callee = numbered("D", j);
        let res = numbered("r", j);
        let args = two("this@Entry".to_owned(), "o".to_owned());
        b.call(st.as_str(), "Entry", callee.as_str(), &args, res.as_str());
        let merge = numbered("Em@", j);
        b.mov(merge.as_str(), "Entry", "res", res.as_str());
        j += 1;
    }
    b.entry("Entry");
    b.prog
}

} // verus!
