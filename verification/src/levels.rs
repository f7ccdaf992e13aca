//! What a branching program looks like, level by level.
//!
//! The program grows by the same few facts with each level, while every level can be
//! reached in two ways from the one above it.
use vstd::prelude::*;

use crate::families::{
    branching_sheet, passed, with_class, with_classes, with_entry, with_fork, with_forks, with_leaf,
};
use crate::ir::Name;
use crate::sheet::{lines_of, positions, Sheet};
use crate::text::{decimal, law_decimal_is_injective};

verus! {

// ---------------------------------------------------------------------------
// The rows of one statement or procedure
// ---------------------------------------------------------------------------

/// The statements of procedure `p`, in order.
pub open spec fn body(rows: Seq<(Name, Name, usize)>, p: Name) -> Seq<(Name, Name, usize)>
    decreases rows.len(),
{
    if rows.len() == 0 {
        rows
    } else if rows.last().1 == p {
        body(rows.drop_last(), p).push(rows.last())
    } else {
        body(rows.drop_last(), p)
    }
}

/// The rows that begin with `x`, in order.
pub open spec fn rows_at(rows: Seq<(Name, Name)>, x: Name) -> Seq<(Name, Name)>
    decreases rows.len(),
{
    if rows.len() == 0 {
        rows
    } else if rows.last().0 == x {
        rows_at(rows.drop_last(), x).push(rows.last())
    } else {
        rows_at(rows.drop_last(), x)
    }
}

/// The arguments of statement `x`, in order.
pub open spec fn args_at(rows: Seq<(Name, usize, Name)>, x: Name) -> Seq<(Name, usize, Name)>
    decreases rows.len(),
{
    if rows.len() == 0 {
        rows
    } else if rows.last().0 == x {
        args_at(rows.drop_last(), x).push(rows.last())
    } else {
        args_at(rows.drop_last(), x)
    }
}

/// Statement `x` neither allocates, nor copies, nor reads a field, nor dispatches.
pub open spec fn only_calls(s: Sheet, x: Name) -> bool {
    &&& forall|k: int| 0 <= k < s.alloc.len() ==> (#[trigger] s.alloc[k]).0 != x
    &&& forall|k: int| 0 <= k < s.virtual_call.len() ==> (#[trigger] s.virtual_call[k]).0 != x
    &&& s.mov.len() == 0
    &&& s.load_field.len() == 0
}

// ---------------------------------------------------------------------------
// A level
// ---------------------------------------------------------------------------

/// The procedure of a level.
pub open spec fn level(i: nat) -> Name {
    "P"@ + decimal(i)
}

/// A call of a level.
pub open spec fn site(i: nat, side: Name) -> Name {
    "S"@ + decimal(i) + side
}

/// Where a level keeps what a call returns.
pub open spec fn result(i: nat, side: Name) -> Name {
    "r"@ + side + ("@"@ + level(i))
}

/// `x` calls the level below `i` with the level's own formals, and does nothing else.
pub open spec fn calls_below(s: Sheet, i: nat, side: Name) -> bool {
    let x = site(i, side);
    &&& rows_at(s.direct_call, x) == seq![(x, level((i - 1) as nat))]
    &&& args_at(s.actual_arg, x) == positions(x, passed(level(i)))
    &&& rows_at(s.bind_ret, x) == seq![(x, result(i, side))]
    &&& only_calls(s, x)
}

/// The statements of the level are two calls of the level below, and it returns the
/// results of both.
pub open spec fn forked(s: Sheet, i: nat) -> bool {
    let me = level(i);
    &&& body(s.in_proc, me) == seq![(site(i, "a"@), me, 0usize), (site(i, "b"@), me, 1usize)]
    &&& calls_below(s, i, "a"@)
    &&& calls_below(s, i, "b"@)
    &&& rows_at(s.ret, me) == seq![(me, result(i, "a"@)), (me, result(i, "b"@))]
}

/// Nothing is said of a call.
spec fn silent(s: Sheet, x: Name) -> bool {
    &&& rows_at(s.direct_call, x).len() == 0
    &&& args_at(s.actual_arg, x).len() == 0
    &&& rows_at(s.bind_ret, x).len() == 0
    &&& only_calls(s, x)
}

/// Nothing is said of the level.
spec fn missing(s: Sheet, i: nat) -> bool {
    &&& body(s.in_proc, level(i)).len() == 0
    &&& rows_at(s.ret, level(i)).len() == 0
    &&& silent(s, site(i, "a"@))
    &&& silent(s, site(i, "b"@))
}

// ---------------------------------------------------------------------------
// Adding rows
// ---------------------------------------------------------------------------

proof fn lemma_pushes()
    ensures
        forall|rows: Seq<(Name, Name, usize)>, x: (Name, Name, usize), p: Name| #[trigger]
            body(rows.push(x), p) == (if x.1 == p {
                body(rows, p).push(x)
            } else {
                body(rows, p)
            }),
        forall|rows: Seq<(Name, Name)>, x: (Name, Name), p: Name| #[trigger]
            rows_at(rows.push(x), p) == (if x.0 == p {
                rows_at(rows, p).push(x)
            } else {
                rows_at(rows, p)
            }),
{
    assert forall|rows: Seq<(Name, Name, usize)>, x: (Name, Name, usize), p: Name| #[trigger]
        body(rows.push(x), p) == (if x.1 == p {
            body(rows, p).push(x)
        } else {
            body(rows, p)
        }) by {
        assert(rows.push(x).drop_last() =~= rows);
    }
    assert forall|rows: Seq<(Name, Name)>, x: (Name, Name), p: Name| #[trigger]
        rows_at(rows.push(x), p) == (if x.0 == p {
            rows_at(rows, p).push(x)
        } else {
            rows_at(rows, p)
        }) by {
        assert(rows.push(x).drop_last() =~= rows);
    }
}

proof fn lemma_args(rows: Seq<(Name, usize, Name)>, s: Name, names: Seq<Name>, x: Name)
    ensures
        args_at(rows + positions(s, names), x) == (if s == x {
            args_at(rows, x) + positions(s, names)
        } else {
            args_at(rows, x)
        }),
    decreases names.len(),
{
    let all = rows + positions(s, names);
    if names.len() == 0 {
        assert(all =~= rows);
        assert(args_at(rows, x) + positions(s, names) =~= args_at(rows, x));
    } else {
        lemma_args(rows, s, names.drop_last(), x);
        assert(positions(s, names).drop_last() =~= positions(s, names.drop_last()));
        assert(all.drop_last() =~= rows + positions(s, names.drop_last()));
        assert(all.last() == positions(s, names).last());
        if s == x {
            assert(args_at(all, x) =~= args_at(rows, x) + positions(s, names));
        }
    }
}

proof fn lemma_lines(rows: Seq<(Name, Name, usize)>, p: Name)
    ensures
        lines_of(rows, p) == body(rows, p).len(),
    decreases rows.len(),
{
    if rows.len() > 0 {
        lemma_lines(rows.drop_last(), p);
    }
}

// ---------------------------------------------------------------------------
// Names
// ---------------------------------------------------------------------------

proof fn lemma_levels_differ(i: nat, j: nat)
    requires
        i != j,
    ensures
        level(i) != level(j),
{
    if level(i) == level(j) {
        reveal_strlit("P");
        assert(level(i).skip(1) =~= decimal(i));
        assert(level(j).skip(1) =~= decimal(j));
        law_decimal_is_injective(i, j);
    }
}

proof fn lemma_sites_differ(i: nat, j: nat)
    ensures
        i != j ==> site(i, "a"@) != site(j, "a"@),
        i != j ==> site(i, "b"@) != site(j, "b"@),
        site(i, "a"@) != site(j, "b"@),
{
    reveal_strlit("S");
    reveal_strlit("a");
    reveal_strlit("b");
    assert(site(i, "a"@).last() == 'a');
    assert(site(j, "b"@).last() == 'b');
    assert(site(i, "a"@).drop_last().skip(1) =~= decimal(i));
    assert(site(j, "a"@).drop_last().skip(1) =~= decimal(j));
    assert(site(i, "b"@).drop_last().skip(1) =~= decimal(i));
    assert(site(j, "b"@).drop_last().skip(1) =~= decimal(j));
    if decimal(i) == decimal(j) {
        law_decimal_is_injective(i, j);
    }
}

/// The names of a level are not those of the other parts of the program.
proof fn lemma_apart(i: nat)
    requires
        i > 0,
    ensures
        level(i) != "P0"@,
        level(i) != "Entry"@,
        forall|x: Name| #[trigger] ("C"@ + x) + ".poly"@ != level(i),
        forall|x: Name, side: Name| side == "a"@ || side == "b"@
            ==> #[trigger] ("A@"@ + x) != #[trigger] site(i, side),
        forall|side: Name| side == "a"@ || side == "b"@ ==> {
            &&& #[trigger] site(i, side) != "S0"@
            &&& site(i, side) != "E0"@
            &&& site(i, side) != "E1"@
            &&& site(i, side) != "E2"@
        },
{
    reveal_strlit("P");
    reveal_strlit("S");
    reveal_strlit("C");
    reveal_strlit("A@");
    reveal_strlit("a");
    reveal_strlit("b");
    reveal_strlit("0");
    reveal_strlit("P0");
    reveal_strlit("S0");
    reveal_strlit("E0");
    reveal_strlit("E1");
    reveal_strlit("E2");
    reveal_strlit("Entry");
    assert(level(i)[0] == 'P');
    assert(level(0) =~= "P0"@);
    lemma_levels_differ(i, 0);
    assert("Entry"@[0] == 'E');
    assert forall|x: Name| #[trigger] ("C"@ + x) + ".poly"@ != level(i) by {
        assert((("C"@ + x) + ".poly"@)[0] == 'C');
    }
    assert forall|x: Name, side: Name| side == "a"@ || side == "b"@ implies #[trigger] ("A@"@ + x)
        != #[trigger] site(i, side) by {
        assert(("A@"@ + x)[0] == 'A');
        assert(site(i, side)[0] == 'S');
    }
    assert forall|side: Name| side == "a"@ || side == "b"@ implies {
        &&& #[trigger] site(i, side) != "S0"@
        &&& site(i, side) != "E0"@
        &&& site(i, side) != "E1"@
        &&& site(i, side) != "E2"@
    } by {
        assert(site(i, side)[0] == 'S');
        assert(site(i, side).last() == side[0]);
        assert("S0"@.last() == '0');
        assert("E0"@[0] == 'E');
        assert("E1"@[0] == 'E');
        assert("E2"@[0] == 'E');
    }
}

// ---------------------------------------------------------------------------
// Building the levels
// ---------------------------------------------------------------------------

/// What is said of call `x` is the same.
spec fn keeps_call(now: Sheet, was: Sheet, x: Name) -> bool {
    &&& rows_at(now.direct_call, x) == rows_at(was.direct_call, x)
    &&& args_at(now.actual_arg, x) == args_at(was.actual_arg, x)
    &&& rows_at(now.bind_ret, x) == rows_at(was.bind_ret, x)
    &&& only_calls(was, x) ==> only_calls(now, x)
}

/// What is said of a level is the same.
spec fn keeps_level(now: Sheet, was: Sheet, i: nat) -> bool {
    &&& body(now.in_proc, level(i)) == body(was.in_proc, level(i))
    &&& rows_at(now.ret, level(i)) == rows_at(was.ret, level(i))
    &&& keeps_call(now, was, site(i, "a"@))
    &&& keeps_call(now, was, site(i, "b"@))
}

proof fn lemma_class(s: Sheet, j: nat, i: nat)
    requires
        i > 0,
    ensures
        keeps_level(with_class(s, j), s, i),
{
    lemma_apart(i);
    lemma_pushes();
    let imp = "C"@ + decimal(j) + ".poly"@;
    assert(imp != level(i));
    let (a, b) = (site(i, "a"@), site(i, "b"@));
    assert("A@"@ + imp != a);
    assert("A@"@ + imp != b);
}

proof fn lemma_start(t: nat, i: nat)
    requires
        i > 0,
    ensures
        missing(with_classes(Sheet::blank(), t), i),
    decreases t,
{
    if t > 0 {
        lemma_start((t - 1) as nat, i);
        lemma_class(with_classes(Sheet::blank(), (t - 1) as nat), (t - 1) as nat, i);
    }
}

proof fn lemma_leaf(s: Sheet, i: nat)
    requires
        i > 0,
    ensures
        keeps_level(with_leaf(s), s, i),
{
    lemma_apart(i);
    lemma_pushes();
    let (a, b) = (site(i, "a"@), site(i, "b"@));
    let args = seq!["x@P0"@, "obj@P0"@];
    assert(a != "S0"@ && b != "S0"@);
    lemma_args(s.actual_arg, "S0"@, args, a);
    lemma_args(s.actual_arg, "S0"@, args, b);
}

proof fn lemma_entry(s: Sheet, top: Name, i: nat)
    requires
        i > 0,
    ensures
        keeps_level(with_entry(s, top), s, i),
{
    lemma_apart(i);
    lemma_pushes();
    let (a, b) = (site(i, "a"@), site(i, "b"@));
    let args = seq!["this@Entry"@, "recv"@, "first"@];
    assert(a != "E2"@ && b != "E2"@);
    lemma_args(s.actual_arg, "E2"@, args, a);
    lemma_args(s.actual_arg, "E2"@, args, b);
}

proof fn lemma_other_fork(s: Sheet, n: nat, i: nat)
    requires
        i != n,
    ensures
        keeps_level(with_fork(s, n), s, i),
{
    lemma_levels_differ(i, n);
    lemma_sites_differ(i, n);
    lemma_sites_differ(n, i);
    lemma_pushes();
    let (a, b) = (site(i, "a"@), site(i, "b"@));
    let (x, y) = (site(n, "a"@), site(n, "b"@));
    let args = passed(level(n));
    let mid = s.actual_arg + positions(x, args);
    lemma_args(s.actual_arg, x, args, a);
    lemma_args(s.actual_arg, x, args, b);
    lemma_args(mid, y, args, a);
    lemma_args(mid, y, args, b);
}

proof fn lemma_own_fork(s: Sheet, i: nat)
    requires
        missing(s, i),
    ensures
        forked(with_fork(s, i), i),
{
    lemma_sites_differ(i, i);
    lemma_pushes();
    let me = level(i);
    let (a, b) = (site(i, "a"@), site(i, "b"@));
    let args = passed(me);
    let mid = s.actual_arg + positions(a, args);
    lemma_args(s.actual_arg, a, args, a);
    lemma_args(s.actual_arg, a, args, b);
    lemma_args(mid, b, args, a);
    lemma_args(mid, b, args, b);
    lemma_lines(s.in_proc, me);
    let one = s.in_proc.push((a, me, 0usize));
    lemma_lines(one, me);
    let now = with_fork(s, i);
    assert(now.in_proc == one.push((b, me, 1usize)));
    assert(body(now.in_proc, me) =~= seq![(a, me, 0usize), (b, me, 1usize)]);
    assert(rows_at(now.ret, me) =~= seq![(me, result(i, "a"@)), (me, result(i, "b"@))]);
    assert(rows_at(now.direct_call, a) =~= seq![(a, level((i - 1) as nat))]);
    assert(rows_at(now.direct_call, b) =~= seq![(b, level((i - 1) as nat))]);
    assert(rows_at(now.bind_ret, a) =~= seq![(a, result(i, "a"@))]);
    assert(rows_at(now.bind_ret, b) =~= seq![(b, result(i, "b"@))]);
    assert(args_at(now.actual_arg, a) =~= positions(a, args));
    assert(args_at(now.actual_arg, b) =~= positions(b, args));
}

proof fn lemma_forks(s: Sheet, n: nat, i: nat)
    requires
        i > 0,
        missing(s, i),
    ensures
        i <= n ==> forked(with_forks(s, n), i),
        i > n ==> missing(with_forks(s, n), i),
    decreases n,
{
    if n > 0 {
        let was = with_forks(s, (n - 1) as nat);
        lemma_forks(s, (n - 1) as nat, i);
        if i == n {
            lemma_own_fork(was, i);
        } else {
            lemma_other_fork(was, n, i);
        }
    }
}

// ---------------------------------------------------------------------------
// Laws
// ---------------------------------------------------------------------------

/// In a branching program of depth `d`, the statements of each level from the first to
/// the last are exactly two calls, both of the level below with the level's own formals,
/// and the level returns the results of both.
pub proof fn law_every_level_forks(d: nat, targets: nat, i: nat)
    requires
        1 <= i <= d,
    ensures
        forked(branching_sheet(d, targets), i),
{
    let classes = with_classes(Sheet::blank(), targets);
    let start = with_leaf(classes);
    lemma_start(targets, i);
    lemma_leaf(classes, i);
    lemma_forks(start, d, i);
    lemma_entry(with_forks(start, d), level(d), i);
}

/// `more` has the rows of one level beyond those of `s`.
pub open spec fn one_level_larger(more: Sheet, s: Sheet) -> bool {
    &&& more.procedure.len() == s.procedure.len() + 1
    &&& more.proc_type.len() == s.proc_type.len() + 1
    &&& more.formal.len() == s.formal.len() + 3
    &&& more.in_proc.len() == s.in_proc.len() + 2
    &&& more.direct_call.len() == s.direct_call.len() + 2
    &&& more.actual_arg.len() == s.actual_arg.len() + 6
    &&& more.bind_ret.len() == s.bind_ret.len() + 2
    &&& more.ret.len() == s.ret.len() + 2
    &&& more.proc_sig.len() == s.proc_sig.len()
    &&& more.entry.len() == s.entry.len()
    &&& more.alloc.len() == s.alloc.len()
    &&& more.alloc_type.len() == s.alloc_type.len()
    &&& more.mov.len() == s.mov.len()
    &&& more.load_field.len() == s.load_field.len()
    &&& more.virtual_call.len() == s.virtual_call.len()
    &&& more.direct_subtype.len() == s.direct_subtype.len()
    &&& more.lookup.len() == s.lookup.len()
}

/// A branching program grows linearly in its depth: however deep it is, one more level
/// adds one procedure with its three formals, two direct calls with six arguments, and
/// their two results, which the level returns. Nothing else grows.
pub proof fn law_branching_grows_linearly(d: nat, targets: nat)
    ensures
        one_level_larger(branching_sheet(d + 1, targets), branching_sheet(d, targets)),
{
    let start = with_leaf(with_classes(Sheet::blank(), targets));
    let was = with_forks(start, d);
    assert(with_forks(start, d + 1) == with_fork(was, d + 1));
    assert(one_level_larger(with_fork(was, d + 1), was));
}

} // verus!
