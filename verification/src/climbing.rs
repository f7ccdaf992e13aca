//! What the analysis finds on a chain of callers above one critical call.
//!
//! In the program of [`crate::families::chain`] the receiver of the critical call is
//! pinned at the top. Under a limit that lets it, the placeholder climbs the whole chain
//! and is resolved there, to the one implementation that the pinned receiver has.
use vstd::prelude::*;

use crate::access_path::{Instance, Path, Root, Value};
use crate::analysis::HybridAnalysis;
use crate::families::{
    chain_sheet, passed, with_caller, with_callers, with_class, with_classes, with_leaf,
};
use crate::ir::{Edb, Name, Program};
use crate::laws::{analysed, law_rule_induction, narrowed};
use crate::levels::level;
use crate::rules::{crit_root, Core, Setting};
use crate::sheet::{lemma_reads, positions, reads, written, Sheet};
use crate::text::{decimal, law_decimal_is_injective};
use crate::tuples::tuples;

verus! {

// ---------------------------------------------------------------------------
// Names
// ---------------------------------------------------------------------------

/// The call that level `i` makes.
pub open spec fn rung(i: nat) -> Name {
    "S"@ + decimal(i)
}

spec fn this_of(i: nat) -> Name {
    "this@"@ + level(i)
}

spec fn recv_of(i: nat) -> Name {
    "x@"@ + level(i)
}

spec fn obj_of(i: nat) -> Name {
    "obj@"@ + level(i)
}

spec fn res_of(i: nat) -> Name {
    "r@"@ + level(i)
}

spec fn class(j: nat) -> Name {
    "C"@ + decimal(j)
}

/// The implementation of class `j`.
pub open spec fn imp(j: nat) -> Name {
    "C"@ + decimal(j) + ".poly"@
}

spec fn this_in(j: nat) -> Name {
    "this@"@ + imp(j)
}

spec fn obj_in(j: nat) -> Name {
    "obj@"@ + imp(j)
}

spec fn temp(j: nat) -> Name {
    "t@"@ + imp(j)
}

spec fn birth(j: nat) -> Name {
    "A@"@ + imp(j)
}

spec fn home(j: nat) -> Name {
    "l@"@ + imp(j)
}

/// The placeholder as level `i` holds it.
pub open spec fn climbed(i: nat) -> Instance
    decreases i,
{
    if i == 0 {
        Instance::origin(rung(0))
    } else {
        climbed((i - 1) as nat).push(rung(i))
    }
}

/// The placeholder as the entry above `n` callers holds it.
pub open spec fn arrived(n: nat) -> Instance {
    climbed(n).push("E2"@)
}

proof fn lemma_climbed(i: nat)
    ensures
        climbed(i).stmt == rung(0),
        climbed(i).depth() == i,
    decreases i,
{
    if i > 0 {
        lemma_climbed((i - 1) as nat);
    }
}

proof fn lemma_decimals(i: nat, j: nat)
    ensures
        level(i) == level(j) ==> i == j,
        rung(i) == rung(j) ==> i == j,
        class(i) == class(j) ==> i == j,
        imp(i) == imp(j) ==> i == j,
{
    reveal_strlit("P");
    reveal_strlit("S");
    reveal_strlit("C");
    reveal_strlit(".poly");
    assert(level(i).skip(1) =~= decimal(i));
    assert(level(j).skip(1) =~= decimal(j));
    assert(rung(i).skip(1) =~= decimal(i));
    assert(rung(j).skip(1) =~= decimal(j));
    assert(class(i).skip(1) =~= decimal(i));
    assert(class(j).skip(1) =~= decimal(j));
    assert(imp(i).take(imp(i).len() - 5) =~= class(i));
    assert(imp(j).take(imp(j).len() - 5) =~= class(j));
    if decimal(i) == decimal(j) {
        law_decimal_is_injective(i, j);
    }
}

proof fn lemma_procs(i: nat, j: nat)
    ensures
        level(i) != "Entry"@,
        imp(j) != "Entry"@,
        level(i) != imp(j),
{
    reveal_strlit("P");
    reveal_strlit("C");
    reveal_strlit("Entry");
    assert(level(i)[0] == 'P');
    assert(imp(j)[0] == 'C');
    assert("Entry"@[0] == 'E');
}

proof fn lemma_statements(i: nat, j: nat)
    ensures
        rung(i) != "E0"@,
        rung(i) != "E1"@,
        rung(i) != "E2"@,
        rung(i) != birth(j),
        birth(j) != "E0"@,
        birth(j) != "E1"@,
        birth(j) != "E2"@,
        "E0"@ != "E1"@,
        "E0"@ != "E2"@,
        "E1"@ != "E2"@,
{
    reveal_strlit("S");
    reveal_strlit("A@");
    reveal_strlit("E0");
    reveal_strlit("E1");
    reveal_strlit("E2");
    assert(rung(i)[0] == 'S');
    assert(birth(j)[0] == 'A');
    assert("E0"@[0] == 'E' && "E1"@[0] == 'E' && "E2"@[0] == 'E');
    assert("E0"@[1] == '0' && "E1"@[1] == '1' && "E2"@[1] == '2');
}

proof fn lemma_locals(i: nat, j: nat)
    ensures
        this_of(i) != recv_of(i),
        this_of(i) != obj_of(i),
        this_of(i) != res_of(i),
        recv_of(i) != obj_of(i),
        recv_of(i) != res_of(i),
        obj_of(i) != res_of(i),
        this_in(j) != obj_in(j),
        this_in(j) != temp(j),
        obj_in(j) != temp(j),
        "this@Entry"@ != "recv"@,
        "this@Entry"@ != "first"@,
        "this@Entry"@ != "res"@,
        "recv"@ != "first"@,
        "recv"@ != "res"@,
        "first"@ != "res"@,
        home(j) != "lrecv"@,
        "lfirst"@ != "lrecv"@,
{
    reveal_strlit("this@");
    reveal_strlit("x@");
    reveal_strlit("obj@");
    reveal_strlit("r@");
    reveal_strlit("t@");
    reveal_strlit("l@");
    reveal_strlit("this@Entry");
    reveal_strlit("recv");
    reveal_strlit("first");
    reveal_strlit("res");
    reveal_strlit("lrecv");
    reveal_strlit("lfirst");
    assert(this_of(i)[0] == 't' && recv_of(i)[0] == 'x' && obj_of(i)[0] == 'o' && res_of(i)[0]
        == 'r');
    assert(this_in(j)[0] == 't' && this_in(j)[1] == 'h' && obj_in(j)[0] == 'o' && temp(j)[0]
        == 't' && temp(j)[1] == '@');
    assert("this@Entry"@[0] == 't' && "recv"@[0] == 'r' && "first"@[0] == 'f' && "res"@[0] == 'r');
    assert("recv"@[2] == 'c' && "res"@[2] == 's');
    assert(home(j)[1] == '@' && "lrecv"@[1] == 'r' && "lfirst"@[1] == 'f');
}

/// The names that are spelled out are those of level and class zero.
proof fn lemma_zero()
    ensures
        "P0"@ == level(0),
        "S0"@ == rung(0),
        "this@P0"@ == this_of(0),
        "x@P0"@ == recv_of(0),
        "obj@P0"@ == obj_of(0),
        "r@P0"@ == res_of(0),
        "C0"@ == class(0),
{
    reveal_strlit("0");
    reveal_strlit("P");
    reveal_strlit("S");
    reveal_strlit("C");
    reveal_strlit("this@");
    reveal_strlit("x@");
    reveal_strlit("obj@");
    reveal_strlit("r@");
    reveal_strlit("P0");
    reveal_strlit("S0");
    reveal_strlit("C0");
    reveal_strlit("this@P0");
    reveal_strlit("x@P0");
    reveal_strlit("obj@P0");
    reveal_strlit("r@P0");
    assert("P0"@ =~= level(0));
    assert("S0"@ =~= rung(0));
    assert("C0"@ =~= class(0));
    assert("this@P0"@ =~= this_of(0));
    assert("x@P0"@ =~= recv_of(0));
    assert("obj@P0"@ =~= obj_of(0));
    assert("r@P0"@ =~= res_of(0));
}

// ---------------------------------------------------------------------------
// The rows of the program
// ---------------------------------------------------------------------------

spec fn in_form(x: (Name, Name, usize)) -> bool {
    ||| exists|j: nat| x.1 == #[trigger] imp(j) && x.0 == birth(j)
    ||| exists|i: nat| x.0 == #[trigger] rung(i) && x.1 == level(i)
    ||| x.1 == "Entry"@ && (x.0 == "E0"@ || x.0 == "E1"@ || x.0 == "E2"@)
}

spec fn alloc_form(x: (Name, Name, Name)) -> bool {
    ||| exists|j: nat| j >= 1 && x == (birth(j), temp(j), home(j))
        && x.0 == "A@"@ + #[trigger] imp(j)
    ||| x == ("E0"@, "first"@, "lfirst"@)
    ||| x == ("E1"@, "recv"@, "lrecv"@)
}

spec fn type_form(x: (Name, Name)) -> bool {
    ||| exists|j: nat| x.0 == "l@"@ + #[trigger] imp(j)
    ||| x.0 == "lfirst"@
    ||| x == ("lrecv"@, class(0))
}

spec fn call_form(x: (Name, Name), n: nat) -> bool {
    exists|i: nat| 1 <= i <= n && x.0 == #[trigger] rung(i) && x.1 == level((i - 1) as nat)
}

spec fn arg_form(x: (Name, usize, Name)) -> bool {
    ||| x == (rung(0), 0usize, recv_of(0))
    ||| x == (rung(0), 1usize, obj_of(0))
    ||| exists|i: nat|
        i >= 1 && x.0 == #[trigger] rung(i) && ((x.1 == 0 && x.2 == this_of(i)) || (x.1 == 1 && x.2
            == recv_of(i)) || (x.1 == 2 && x.2 == obj_of(i)))
    ||| x.0 == "E2"@ && ((x.1 == 0 && x.2 == "this@Entry"@) || (x.1 == 1 && x.2 == "recv"@) || (x.1
        == 2 && x.2 == "first"@))
}

spec fn bind_form(x: (Name, Name)) -> bool {
    ||| exists|i: nat| x.0 == #[trigger] rung(i) && x.1 == res_of(i)
    ||| x == ("E2"@, "res"@)
}

spec fn formal_form(x: (Name, usize, Name)) -> bool {
    ||| exists|j: nat|
        x.0 == #[trigger] imp(j) && ((x.1 == 0 && x.2 == this_in(j)) || (x.1 == 1 && x.2 == obj_in(
            j,
        )))
    ||| exists|i: nat|
        x.0 == #[trigger] level(i) && ((x.1 == 0 && x.2 == this_of(i)) || (x.1 == 1 && x.2
            == recv_of(i)) || (x.1 == 2 && x.2 == obj_of(i)))
    ||| x == ("Entry"@, 0usize, "this@Entry"@)
}

spec fn ret_form(x: (Name, Name)) -> bool {
    ||| x == (imp(0), obj_in(0))
    ||| exists|j: nat| j >= 1 && x.0 == #[trigger] imp(j) && x.1 == temp(j)
    ||| exists|i: nat| x.0 == #[trigger] level(i) && x.1 == res_of(i)
}

spec fn look_form(x: (Name, Name, Name), t: nat) -> bool {
    exists|j: nat| j < t && x.0 == class(j) && x.1 == "poly(Obj)"@ && x.2 == #[trigger] imp(j)
}

/// Every row has its form.
spec fn shaped(s: Sheet, t: nat, n: nat) -> bool {
    &&& forall|x: (Name, Name, usize)| #[trigger] s.in_proc.contains(x) ==> in_form(x)
    &&& forall|x: (Name, Name, Name)| #[trigger] s.alloc.contains(x) ==> alloc_form(x)
    &&& forall|x: (Name, Name)| #[trigger] s.alloc_type.contains(x) ==> type_form(x)
    &&& forall|x: (Name, Name)| #[trigger] s.direct_call.contains(x) ==> call_form(x, n)
    &&& forall|x: (Name, Name, Name)| #[trigger]
        s.virtual_call.contains(x) ==> x == (rung(0), recv_of(0), "poly(Obj)"@)
    &&& forall|x: (Name, usize, Name)| #[trigger] s.actual_arg.contains(x) ==> arg_form(x)
    &&& forall|x: (Name, Name)| #[trigger] s.bind_ret.contains(x) ==> bind_form(x)
    &&& forall|x: (Name, usize, Name)| #[trigger] s.formal.contains(x) ==> formal_form(x)
    &&& forall|x: (Name, Name)| #[trigger] s.ret.contains(x) ==> ret_form(x)
    &&& forall|x: (Name, Name, Name)| #[trigger] s.lookup.contains(x) ==> look_form(x, t)
    &&& forall|x: Name| #[trigger] s.entry.contains(x) ==> x == "Entry"@
    &&& s.mov.len() == 0
    &&& s.load_field.len() == 0
}

/// Every row of `a` is one of `b`.
spec fn within(a: Sheet, b: Sheet) -> bool {
    &&& forall|x: (Name, Name, usize)| a.in_proc.contains(x) ==> #[trigger] b.in_proc.contains(x)
    &&& forall|x: (Name, Name, Name)| a.alloc.contains(x) ==> #[trigger] b.alloc.contains(x)
    &&& forall|x: (Name, Name)| a.alloc_type.contains(x) ==> #[trigger] b.alloc_type.contains(x)
    &&& forall|x: (Name, Name)| a.direct_call.contains(x) ==> #[trigger] b.direct_call.contains(x)
    &&& forall|x: (Name, Name, Name)|
        a.virtual_call.contains(x) ==> #[trigger] b.virtual_call.contains(x)
    &&& forall|x: (Name, usize, Name)|
        a.actual_arg.contains(x) ==> #[trigger] b.actual_arg.contains(x)
    &&& forall|x: (Name, Name)| a.bind_ret.contains(x) ==> #[trigger] b.bind_ret.contains(x)
    &&& forall|x: (Name, usize, Name)| a.formal.contains(x) ==> #[trigger] b.formal.contains(x)
    &&& forall|x: (Name, Name, Name)| a.lookup.contains(x) ==> #[trigger] b.lookup.contains(x)
}

/// The rows of level `i`.
spec fn has_level(s: Sheet, i: nat) -> bool {
    &&& stands(s, rung(i), level(i))
    &&& s.formal.contains((level(i), 1usize, recv_of(i)))
    &&& i == 0 ==> s.virtual_call.contains((rung(0), recv_of(0), "poly(Obj)"@))
        && s.actual_arg.contains((rung(0), 0usize, recv_of(0)))
    &&& i > 0 ==> s.direct_call.contains((rung(i), level((i - 1) as nat))) && s.actual_arg.contains(
        (rung(i), 1usize, recv_of(i)),
    )
}

spec fn stands(s: Sheet, x: Name, p: Name) -> bool {
    exists|l: usize| s.in_proc.contains((x, p, l))
}

spec fn has_class(s: Sheet, j: nat) -> bool {
    s.lookup.contains((class(j), "poly(Obj)"@, imp(j)))
}

spec fn has_entry(s: Sheet, n: nat) -> bool {
    &&& stands(s, "E1"@, "Entry"@)
    &&& stands(s, "E2"@, "Entry"@)
    &&& s.alloc.contains(("E1"@, "recv"@, "lrecv"@))
    &&& s.alloc_type.contains(("lrecv"@, class(0)))
    &&& s.direct_call.contains(("E2"@, level(n)))
    &&& s.actual_arg.contains(("E2"@, 1usize, "recv"@))
}

proof fn lemma_push<T>(s: Seq<T>, y: T)
    ensures
        forall|x: T| #[trigger] s.push(y).contains(x) <==> s.contains(x) || x == y,
{
    assert forall|x: T| #[trigger] s.push(y).contains(x) <==> s.contains(x) || x == y by {
        if s.contains(x) {
            let i = choose|i: int| 0 <= i < s.len() && s[i] == x;
            assert(s.push(y)[i] == x);
        }
        assert(s.push(y)[s.len() as int] == y);
        if s.push(y).contains(x) {
            let i = choose|i: int| 0 <= i < s.push(y).len() && s.push(y)[i] == x;
            if i < s.len() {
                assert(s[i] == x);
            }
        }
    }
}

spec fn at_position(x: (Name, usize, Name), s: Name, names: Seq<Name>) -> bool {
    x.0 == s && x.1 < names.len() && x.2 == names[x.1 as int]
}

proof fn lemma_positions(rows: Seq<(Name, usize, Name)>, s: Name, names: Seq<Name>)
    requires
        names.len() <= 3,
    ensures
        forall|x: (Name, usize, Name)| #[trigger]
            (rows + positions(s, names)).contains(x) <==> rows.contains(x) || at_position(
                x,
                s,
                names,
            ),
{
    let all = rows + positions(s, names);
    assert forall|x: (Name, usize, Name)| #[trigger] all.contains(x) <==> rows.contains(x)
        || at_position(x, s, names) by {
        if rows.contains(x) {
            let i = choose|i: int| 0 <= i < rows.len() && rows[i] == x;
            assert(all[i] == x);
        }
        if at_position(x, s, names) {
            assert(positions(s, names)[x.1 as int] == x);
            assert(all[rows.len() + x.1] == x);
        }
        if all.contains(x) {
            let i = choose|i: int| 0 <= i < all.len() && all[i] == x;
            if i < rows.len() {
                assert(rows[i] == x);
            } else {
                assert(positions(s, names)[i - rows.len()] == x);
            }
        }
    }
}

proof fn lemma_class(s: Sheet, t: nat)
    requires
        shaped(s, t, 0),
    ensures
        shaped(with_class(s, t), t + 1, 0),
        within(s, with_class(s, t)),
        has_class(with_class(s, t), t),
{
    let now = with_class(s, t);
    let i = imp(t);
    let formals = seq![this_in(t), obj_in(t)];
    lemma_push(s.lookup, (class(t), "poly(Obj)"@, i));
    lemma_positions(s.formal, i, formals);
    assert(now.formal == s.formal + positions(i, formals));
    assert(now.lookup == s.lookup.push((class(t), "poly(Obj)"@, i)));
    assert(now.lookup.contains((class(t), "poly(Obj)"@, i)));
    assert forall|x: (Name, Name, Name)| #[trigger] now.lookup.contains(x) implies look_form(
        x,
        t + 1,
    ) by {
        if s.lookup.contains(x) {
            assert(look_form(x, t));
        } else {
            assert(x.2 == imp(t));
        }
    }
    assert forall|x: (Name, usize, Name)| #[trigger] now.formal.contains(x) implies formal_form(
        x,
    ) by {
        if !s.formal.contains(x) {
            assert(at_position(x, i, formals));
            assert(x.0 == imp(t));
        }
    }
    if t == 0 {
        lemma_push(s.ret, (i, obj_in(t)));
    } else {
        lemma_push(s.ret, (i, temp(t)));
        lemma_push(s.alloc, (birth(t), temp(t), home(t)));
        lemma_push(s.alloc_type, (home(t), "Obj"@));
        let row = (birth(t), i, crate::sheet::lines_of(s.in_proc, i) as usize);
        lemma_push(s.in_proc, row);
        assert(now.in_proc == s.in_proc.push(row));
        assert(now.alloc == s.alloc.push((birth(t), temp(t), home(t))));
        assert(now.alloc_type == s.alloc_type.push((home(t), "Obj"@)));
        assert(in_form(row)) by {
            assert(row.1 == imp(t));
        }
        assert(alloc_form((birth(t), temp(t), home(t)))) by {
            assert(birth(t) == "A@"@ + imp(t));
        }
        assert(type_form((home(t), "Obj"@))) by {
            assert(home(t) == "l@"@ + imp(t));
        }
        assert(ret_form((i, temp(t)))) by {
            assert(i == imp(t));
        }
    }
}

proof fn lemma_classes(t: nat)
    ensures
        shaped(with_classes(Sheet::blank(), t), t, 0),
        forall|j: nat| j < t ==> #[trigger] has_class(with_classes(Sheet::blank(), t), j),
    decreases t,
{
    if t > 0 {
        let k = (t - 1) as nat;
        lemma_classes(k);
        let was = with_classes(Sheet::blank(), k);
        lemma_class(was, k);
        assert forall|j: nat| j < t implies #[trigger] has_class(
            with_classes(Sheet::blank(), t),
            j,
        ) by {
            if j < k {
                assert(has_class(was, j));
            }
        }
    }
}

proof fn lemma_leaf(s: Sheet, t: nat)
    requires
        shaped(s, t, 0),
    ensures
        shaped(with_leaf(s), t, 0),
        within(s, with_leaf(s)),
        has_level(with_leaf(s), 0),
{
    lemma_zero();
    let now = with_leaf(s);
    let p = level(0);
    let formals = seq![this_of(0), recv_of(0), obj_of(0)];
    let args = seq![recv_of(0), obj_of(0)];
    let row = (rung(0), p, crate::sheet::lines_of(s.in_proc, p) as usize);
    lemma_push(s.in_proc, row);
    lemma_push(s.virtual_call, (rung(0), recv_of(0), "poly(Obj)"@));
    lemma_push(s.bind_ret, (rung(0), res_of(0)));
    lemma_push(s.ret, (p, res_of(0)));
    lemma_positions(s.formal, p, formals);
    lemma_positions(s.actual_arg, rung(0), args);
    assert(now.in_proc == s.in_proc.push(row));
    assert(now.formal == s.formal + positions(p, formals));
    assert(now.actual_arg == s.actual_arg + positions(rung(0), args));
    assert(in_form(row)) by {
        assert(row.0 == rung(0));
    }
    assert forall|x: (Name, usize, Name)| #[trigger] now.formal.contains(x) implies formal_form(
        x,
    ) by {
        if !s.formal.contains(x) {
            assert(at_position(x, p, formals));
            assert(x.0 == level(0));
        }
    }
    assert forall|x: (Name, usize, Name)| #[trigger] now.actual_arg.contains(x) implies arg_form(
        x,
    ) by {
        if !s.actual_arg.contains(x) {
            assert(at_position(x, rung(0), args));
        }
    }
    assert(bind_form((rung(0), res_of(0))));
    assert(ret_form((p, res_of(0)))) by {
        assert(p == level(0));
    }
    assert(now.in_proc.contains(row));
    assert(at_position((p, 1usize, recv_of(0)), p, formals));
    assert(at_position((rung(0), 0usize, recv_of(0)), rung(0), args));
    assert(now.formal.contains((p, 1usize, recv_of(0))));
    assert(now.actual_arg.contains((rung(0), 0usize, recv_of(0))));
    assert(now.virtual_call.contains((rung(0), recv_of(0), "poly(Obj)"@)));
}

proof fn lemma_caller(s: Sheet, t: nat, i: nat)
    requires
        i >= 1,
        shaped(s, t, (i - 1) as nat),
    ensures
        shaped(with_caller(s, i), t, i),
        within(s, with_caller(s, i)),
        has_level(with_caller(s, i), i),
{
    let now = with_caller(s, i);
    let p = level(i);
    let args = passed(p);
    let row = (rung(i), p, crate::sheet::lines_of(s.in_proc, p) as usize);
    let call = (rung(i), level((i - 1) as nat));
    lemma_push(s.in_proc, row);
    lemma_push(s.direct_call, call);
    lemma_push(s.bind_ret, (rung(i), res_of(i)));
    lemma_push(s.ret, (p, res_of(i)));
    lemma_positions(s.formal, p, args);
    lemma_positions(s.actual_arg, rung(i), args);
    assert(now.in_proc == s.in_proc.push(row));
    assert(now.direct_call == s.direct_call.push(call));
    assert(now.formal == s.formal + positions(p, args));
    assert(now.actual_arg == s.actual_arg + positions(rung(i), args));
    assert(in_form(row)) by {
        assert(row.0 == rung(i));
    }
    assert forall|x: (Name, Name)| #[trigger] now.direct_call.contains(x) implies call_form(
        x,
        i,
    ) by {
        if s.direct_call.contains(x) {
            assert(call_form(x, (i - 1) as nat));
            let k = choose|k: nat|
                1 <= k <= (i - 1) as nat && x.0 == #[trigger] rung(k) && x.1 == level(
                    (k - 1) as nat,
                );
            assert(x.0 == rung(k));
        } else {
            assert(x.0 == rung(i));
        }
    }
    assert forall|x: (Name, usize, Name)| #[trigger] now.formal.contains(x) implies formal_form(
        x,
    ) by {
        if !s.formal.contains(x) {
            assert(at_position(x, p, args));
            assert(x.0 == level(i));
        }
    }
    assert forall|x: (Name, usize, Name)| #[trigger] now.actual_arg.contains(x) implies arg_form(
        x,
    ) by {
        if !s.actual_arg.contains(x) {
            assert(at_position(x, rung(i), args));
            assert(x.0 == rung(i));
        }
    }
    assert(bind_form((rung(i), res_of(i))));
    assert(ret_form((p, res_of(i)))) by {
        assert(p == level(i));
    }
    assert(now.in_proc.contains(row));
    assert(at_position((p, 1usize, recv_of(i)), p, args));
    assert(at_position((rung(i), 1usize, recv_of(i)), rung(i), args));
    assert(now.formal.contains((p, 1usize, recv_of(i))));
    assert(now.actual_arg.contains((rung(i), 1usize, recv_of(i))));
    assert(now.direct_call.contains(call));
}

proof fn lemma_within_level(a: Sheet, b: Sheet, i: nat)
    requires
        within(a, b),
        has_level(a, i),
    ensures
        has_level(b, i),
{
    let l = choose|l: usize| a.in_proc.contains((rung(i), level(i), l));
    assert(b.in_proc.contains((rung(i), level(i), l)));
}

proof fn lemma_callers(s: Sheet, t: nat, n: nat)
    requires
        shaped(s, t, 0),
        has_level(s, 0),
    ensures
        shaped(with_callers(s, n), t, n),
        within(s, with_callers(s, n)),
        forall|i: nat| i <= n ==> #[trigger] has_level(with_callers(s, n), i),
    decreases n,
{
    if n > 0 {
        let k = (n - 1) as nat;
        lemma_callers(s, t, k);
        let was = with_callers(s, k);
        lemma_caller(was, t, n);
        assert forall|i: nat| i <= n implies #[trigger] has_level(with_callers(s, n), i) by {
            if i <= k {
                lemma_within_level(was, with_callers(s, n), i);
            }
        }
    }
}

/// What the program of `n` callers and `t` classes says.
spec fn told(s: Sheet, t: nat, n: nat) -> bool {
    &&& shaped(Sheet { direct_call: Seq::empty(), ..s }, t, n)
    &&& forall|x: (Name, Name)| #[trigger]
        s.direct_call.contains(x) ==> call_form(x, n) || x == ("E2"@, level(n))
    &&& forall|i: nat| i <= n ==> #[trigger] has_level(s, i)
    &&& forall|j: nat| j < t ==> #[trigger] has_class(s, j)
    &&& has_entry(s, n)
}

proof fn lemma_told(n: nat, t: nat)
    ensures
        told(chain_sheet(n, t), t, n),
{
    lemma_zero();
    let classes = with_classes(Sheet::blank(), t);
    let leaf = with_leaf(classes);
    lemma_classes(t);
    lemma_leaf(classes, t);
    lemma_callers(leaf, t, n);
    let s = with_callers(leaf, n);
    let now = chain_sheet(n, t);
    let p = "Entry"@;
    let top = level(n);
    let args = seq!["this@Entry"@, "recv"@, "first"@];
    let a = ("E0"@, p, crate::sheet::lines_of(s.in_proc, p) as usize);
    let one = s.in_proc.push(a);
    let b = ("E1"@, p, crate::sheet::lines_of(one, p) as usize);
    let two = one.push(b);
    let c = ("E2"@, p, crate::sheet::lines_of(two, p) as usize);
    let first = ("E0"@, "first"@, "lfirst"@);
    let second = ("E1"@, "recv"@, "lrecv"@);
    assert(now.in_proc == two.push(c));
    assert(now.alloc == s.alloc.push(first).push(second));
    assert(now.alloc_type == s.alloc_type.push(("lfirst"@, "Obj"@)).push(("lrecv"@, "C0"@)));
    assert(now.direct_call == s.direct_call.push(("E2"@, top)));
    assert(now.actual_arg == s.actual_arg + positions("E2"@, args));
    assert(now.bind_ret == s.bind_ret.push(("E2"@, "res"@)));
    assert(now.formal == s.formal + positions(p, seq!["this@Entry"@]));
    assert(now.entry == s.entry.push(p));
    lemma_push(s.in_proc, a);
    lemma_push(one, b);
    lemma_push(two, c);
    lemma_push(s.alloc, first);
    lemma_push(s.alloc.push(first), second);
    lemma_push(s.alloc_type, ("lfirst"@, "Obj"@));
    lemma_push(s.alloc_type.push(("lfirst"@, "Obj"@)), ("lrecv"@, "C0"@));
    lemma_push(s.direct_call, ("E2"@, top));
    lemma_push(s.bind_ret, ("E2"@, "res"@));
    lemma_push(s.entry, p);
    lemma_positions(s.actual_arg, "E2"@, args);
    lemma_positions(s.formal, p, seq!["this@Entry"@]);
    assert(within(s, now));
    assert forall|i: nat| i <= n implies #[trigger] has_level(now, i) by {
        lemma_within_level(s, now, i);
    }
    assert forall|j: nat| j < t implies #[trigger] has_class(now, j) by {
        assert(has_class(classes, j));
        assert(leaf.lookup.contains((class(j), "poly(Obj)"@, imp(j))));
        assert(s.lookup.contains((class(j), "poly(Obj)"@, imp(j))));
    }
    assert(now.in_proc.contains(b));
    assert(now.in_proc.contains(c));
    assert(at_position(("E2"@, 1usize, "recv"@), "E2"@, args));
    assert(now.actual_arg.contains(("E2"@, 1usize, "recv"@)));
    assert(now.direct_call.contains(("E2"@, top)));
    assert(now.alloc.contains(second));
    assert(now.alloc_type.contains(("lrecv"@, "C0"@)));
    assert forall|x: (Name, usize, Name)| #[trigger] now.actual_arg.contains(x) implies arg_form(
        x,
    ) by {
        if !s.actual_arg.contains(x) {
            assert(at_position(x, "E2"@, args));
        }
    }
    assert forall|x: (Name, usize, Name)| #[trigger] now.formal.contains(x) implies formal_form(
        x,
    ) by {
        if !s.formal.contains(x) {
            assert(at_position(x, p, seq!["this@Entry"@]));
        }
    }
}

// ---------------------------------------------------------------------------
// What the facts settle
// ---------------------------------------------------------------------------

/// The facts of the program of `n` callers and `t` classes.
spec fn facts(e: Edb, t: nat, n: nat) -> bool {
    &&& forall|x: (Name, Name, usize)| #[trigger] e.in_proc.contains(x) ==> in_form(x)
    &&& forall|x: (Name, Name, Name)| #[trigger] e.alloc.contains(x) ==> alloc_form(x)
    &&& forall|x: (Name, Name)| #[trigger] e.alloc_type.contains(x) ==> type_form(x)
    &&& forall|x: (Name, Name)| #[trigger]
        e.direct_call.contains(x) ==> call_form(x, n) || x == ("E2"@, level(n))
    &&& forall|x: (Name, Name, Name)| #[trigger]
        e.virtual_call.contains(x) ==> x == (rung(0), recv_of(0), "poly(Obj)"@)
    &&& forall|x: (Name, usize, Name)| #[trigger] e.actual_arg.contains(x) ==> arg_form(x)
    &&& forall|x: (Name, Name)| #[trigger] e.bind_ret.contains(x) ==> bind_form(x)
    &&& forall|x: (Name, usize, Name)| #[trigger] e.formal.contains(x) ==> formal_form(x)
    &&& forall|x: (Name, Name)| #[trigger] e.ret.contains(x) ==> ret_form(x)
    &&& forall|x: (Name, Name, Name)| #[trigger] e.lookup.contains(x) ==> look_form(x, t)
    &&& forall|x: Name| #[trigger] e.entry.contains(x) ==> x == "Entry"@
    &&& forall|x: (Name, Name, Name)| !#[trigger] e.mov.contains(x)
    &&& forall|x: (Name, Name, Name, Name)| !#[trigger] e.load_field.contains(x)
    &&& forall|x: (Name, Name, Name)| !#[trigger] e.const_assign.contains(x)
    &&& forall|x: (Name, Name, Name, Name)| !#[trigger] e.store_field.contains(x)
    &&& forall|x: (Name, Name, Name, Name)| !#[trigger] e.load_index_const.contains(x)
    &&& forall|x: (Name, Name, Name, Name)| !#[trigger] e.store_index_const.contains(x)
    &&& forall|x: (Name, Name, Name, Name)| !#[trigger] e.load_index_var.contains(x)
    &&& forall|x: (Name, Name, Name, Name)| !#[trigger] e.store_index_var.contains(x)
    &&& forall|i: nat| i <= n ==> #[trigger] e_level(e, i)
    &&& forall|j: nat| j < t ==> e.lookup.contains((class(j), "poly(Obj)"@, #[trigger] imp(j)))
    &&& e.stands_in("E1"@, "Entry"@)
    &&& e.stands_in("E2"@, "Entry"@)
    &&& e.alloc.contains(("E1"@, "recv"@, "lrecv"@))
    &&& e.alloc_type.contains(("lrecv"@, class(0)))
    &&& e.direct_call.contains(("E2"@, level(n)))
    &&& e.actual_arg.contains(("E2"@, 1usize, "recv"@))
}

spec fn e_level(e: Edb, i: nat) -> bool {
    &&& e.stands_in(rung(i), level(i))
    &&& e.formal.contains((level(i), 1usize, recv_of(i)))
    &&& i == 0 ==> e.virtual_call.contains((rung(0), recv_of(0), "poly(Obj)"@))
        && e.actual_arg.contains((rung(0), 0usize, recv_of(0)))
    &&& i > 0 ==> e.direct_call.contains((rung(i), level((i - 1) as nat))) && e.actual_arg.contains(
        (rung(i), 1usize, recv_of(i)),
    )
}

proof fn lemma_facts(e: Edb, s: Sheet, t: nat, n: nat)
    requires
        reads(e, s),
        told(s, t, n),
    ensures
        facts(e, t, n),
{
    let f = Sheet { direct_call: Seq::empty(), ..s };
    assert(f.in_proc == s.in_proc && f.alloc == s.alloc && f.alloc_type == s.alloc_type);
    assert(f.virtual_call == s.virtual_call && f.actual_arg == s.actual_arg);
    assert(f.bind_ret == s.bind_ret && f.formal == s.formal && f.ret == s.ret);
    assert(f.lookup == s.lookup && f.entry == s.entry);
    assert forall|i: nat| i <= n implies #[trigger] e_level(e, i) by {
        assert(has_level(s, i));
        let l = choose|l: usize| s.in_proc.contains((rung(i), level(i), l));
        assert(e.in_proc.contains((rung(i), level(i), l)));
    }
    assert forall|j: nat| j < t implies e.lookup.contains(
        (class(j), "poly(Obj)"@, #[trigger] imp(j)),
    ) by {
        assert(has_class(s, j));
    }
    let l = choose|l: usize| s.in_proc.contains(("E1"@, "Entry"@, l));
    assert(e.in_proc.contains(("E1"@, "Entry"@, l)));
    let k = choose|k: usize| s.in_proc.contains(("E2"@, "Entry"@, k));
    assert(e.in_proc.contains(("E2"@, "Entry"@, k)));
}

/// The implementations of the first `t` classes.
spec fn imps(t: nat) -> Set<Name>
    decreases t,
{
    if t == 0 {
        Set::empty()
    } else {
        imps((t - 1) as nat).insert(imp((t - 1) as nat))
    }
}

proof fn lemma_imps(t: nat)
    ensures
        imps(t).finite(),
        forall|j: nat| j < t ==> imps(t).contains(#[trigger] imp(j)),
    decreases t,
{
    if t > 0 {
        lemma_imps((t - 1) as nat);
    }
}

/// The call has several targets, so it is critical and no direct call.
proof fn lemma_targets(e: Edb, t: nat, n: nat)
    requires
        facts(e, t, n),
        t >= 2,
    ensures
        e.targets("poly(Obj)"@).len() > 1,
        e.critical(rung(0)),
        forall|s: Name| #[trigger] e.critical(s) ==> s == rung(0),
        forall|s: Name, c: Name| #[trigger]
            e.eff_direct(s, c) <==> e.direct_call.contains((s, c)),
{
    let g = "poly(Obj)"@;
    let set = e.targets(g);
    lemma_imps(t);
    assert forall|p: Name| set.contains(p) implies #[trigger] imps(t).contains(p) by {
        let y = choose|y: Name| e.lookup.contains((y, g, p));
        assert(look_form((y, g, p), t));
        let j = choose|j: nat|
            j < t && y == class(j) && g == "poly(Obj)"@ && p == #[trigger] imp(j);
        assert(imps(t).contains(imp(j)));
    }
    assert(set.subset_of(imps(t)));
    vstd::set_lib::lemma_len_subset(set, imps(t));
    lemma_decimals(0, 1);
    let pair = Set::empty().insert(imp(0)).insert(imp(1));
    assert(pair.len() == 2);
    assert(e.lookup.contains((class(0), g, imp(0))));
    assert(e.lookup.contains((class(1), g, imp(1))));
    assert(set.contains(imp(0)) && set.contains(imp(1)));
    assert(pair.subset_of(set));
    vstd::set_lib::lemma_len_subset(pair, set);
    assert(e_level(e, 0));
    assert(e.virtual_call.contains((rung(0), recv_of(0), g)));
    assert forall|s: Name, c: Name| #[trigger] e.eff_direct(s, c) implies e.direct_call.contains(
        (s, c),
    ) by {
        if e.mono_target(s, c) {
            let (r, x) = choose|r: Name, x: Name| #[trigger]
                e.virtual_call.contains((s, r, x)) && e.targets(x).len() == 1 && e.sig_target(x, c);
            assert(x == g);
        }
    }
}

proof fn lemma_where(e: Edb, t: nat, n: nat, s: Name, p: Name)
    requires
        facts(e, t, n),
        e.stands_in(s, p),
    ensures
        forall|i: nat| s == #[trigger] rung(i) ==> p == level(i),
        s == "E0"@ || s == "E1"@ || s == "E2"@ ==> p == "Entry"@,
        forall|j: nat| s == "A@"@ + #[trigger] imp(j) ==> p == imp(j),
{
    let l = choose|l: usize| e.in_proc.contains((s, p, l));
    let x = (s, p, l);
    assert(in_form(x));
    if exists|j: nat| x.1 == #[trigger] imp(j) && x.0 == birth(j) {
        let j = choose|j: nat| x.1 == #[trigger] imp(j) && x.0 == birth(j);
        lemma_statements(0, j);
        assert forall|i: nat| s == #[trigger] rung(i) implies p == level(i) by {
            lemma_statements(i, j);
        }
        assert forall|k: nat| s == "A@"@ + #[trigger] imp(k) implies p == imp(k) by {
            reveal_strlit("A@");
            assert(s.skip(2) =~= imp(k));
            assert(s.skip(2) =~= imp(j));
        }
    } else if exists|i: nat| x.0 == #[trigger] rung(i) && x.1 == level(i) {
        let i = choose|i: nat| x.0 == #[trigger] rung(i) && x.1 == level(i);
        lemma_statements(i, 0);
        assert forall|k: nat| s == #[trigger] rung(k) implies p == level(k) by {
            lemma_decimals(i, k);
        }
        assert forall|k: nat| s == "A@"@ + #[trigger] imp(k) implies p == imp(k) by {
            lemma_statements(i, k);
        }
    } else {
        assert forall|i: nat| s == #[trigger] rung(i) implies p == level(i) by {
            lemma_statements(i, 0);
        }
        assert forall|k: nat| s == "A@"@ + #[trigger] imp(k) implies p == imp(k) by {
            lemma_statements(0, k);
        }
    }
}

/// A call of the chain: `i` is the level that makes it, or `n + 1` for the entry.
spec fn climbs(n: nat, s: Name, c: Name, p: Name, i: nat) -> bool {
    &&& 1 <= i <= n + 1
    &&& c == level((i - 1) as nat)
    &&& if i <= n {
        s == rung(i) && p == level(i)
    } else {
        s == "E2"@ && p == "Entry"@
    }
}

proof fn lemma_calls(e: Edb, t: nat, n: nat, s: Name, c: Name, p: Name) -> (i: nat)
    requires
        facts(e, t, n),
        t >= 2,
        e.eff_direct(s, c),
        e.stands_in(s, p),
    ensures
        climbs(n, s, c, p, i),
{
    lemma_targets(e, t, n);
    lemma_where(e, t, n, s, p);
    if (s, c) == ("E2"@, level(n)) {
        n + 1
    } else {
        assert(call_form((s, c), n));
        choose|i: nat| 1 <= i <= n && s == #[trigger] rung(i) && c == level((i - 1) as nat)
    }
}

/// Everything but the entry is called, and the entry is not.
proof fn lemma_called(e: Edb, t: nat, n: nat)
    requires
        facts(e, t, n),
        t >= 2,
    ensures
        forall|i: nat| i <= n ==> e.is_called(#[trigger] level(i)),
        !e.is_called("Entry"@),
{
    lemma_targets(e, t, n);
    assert forall|i: nat| i <= n implies e.is_called(#[trigger] level(i)) by {
        if i < n {
            assert(e_level(e, i + 1));
            assert(e.eff_direct(rung(i + 1), level(i)));
            assert(e.stands_in(rung(i + 1), level(i + 1)));
            assert(e.located(rung(i + 1)));
        } else {
            assert(e.eff_direct("E2"@, level(n)));
            assert(e.located("E2"@));
        }
    }
    if e.is_called("Entry"@) {
        let s = choose|s: Name| #[trigger] e.eff_direct(s, "Entry"@) && e.located(s);
        let p = choose|p: Name| e.stands_in(s, p);
        let i = lemma_calls(e, t, n, s, "Entry"@, p);
        lemma_procs((i - 1) as nat, 0);
    }
}

// ---------------------------------------------------------------------------
// The model
// ---------------------------------------------------------------------------

/// The roots of level `i`, on four channels: the first three are its arguments, and the
/// last is its result.
spec fn at_level(i: nat, r: Root, c: nat) -> bool {
    match r {
        Root::Var(v) => {
            ||| v == this_of(i) && c == 0
            ||| v == recv_of(i) && c == 1
            ||| v == obj_of(i) && c == 2
            ||| v == res_of(i) && c == 3
        },
        Root::Param(q, k) => q == level(i) && k < 3 && c == k,
        Root::Ret(q) => q == level(i) && c == 3,
        Root::Slot(id, k) => id == climbed(i) && (k == 0 && c == 1 || k == 1 && c == 2),
        Root::Res(id) => id == climbed(i) && c == 3,
    }
}

/// The roots of the entry. What the call returns is what it passed.
spec fn at_entry(n: nat, r: Root, c: nat) -> bool {
    match r {
        Root::Var(v) => {
            ||| v == "this@Entry"@ && c == 0
            ||| v == "recv"@ && c == 1
            ||| (v == "first"@ || v == "res"@) && c == 2
        },
        Root::Param(q, k) => q == "Entry"@ && k == 0 && c == 0,
        Root::Ret(q) => false,
        Root::Slot(id, k) => id == arrived(n) && (k == 0 && c == 1 || k == 1 && c == 2),
        Root::Res(id) => id == arrived(n) && c == 2,
    }
}

/// The roots of an implementation.
spec fn at_class(j: nat, r: Root, c: nat) -> bool {
    match r {
        Root::Var(v) => {
            ||| v == this_in(j) && c == 0
            ||| v == obj_in(j) && c == 1
            ||| v == temp(j) && c == 2
        },
        Root::Param(q, k) => q == imp(j) && k < 2 && c == k,
        Root::Ret(q) => q == imp(j) && (if j == 0 {
            c == 1
        } else {
            c == 2
        }),
        _ => false,
    }
}

/// The root `r` of `p` is on channel `c`.
spec fn on(n: nat, p: Name, r: Root, c: nat) -> bool {
    ||| exists|i: nat| p == #[trigger] level(i) && at_level(i, r, c)
    ||| p == "Entry"@ && at_entry(n, r, c)
    ||| exists|j: nat| p == #[trigger] imp(j) && at_class(j, r, c)
}

proof fn lemma_on_level(n: nat, i: nat, r: Root, c: nat)
    ensures
        on(n, level(i), r, c) <==> at_level(i, r, c),
{
    lemma_procs(i, 0);
    if on(n, level(i), r, c) {
        if exists|k: nat| level(i) == #[trigger] level(k) && at_level(k, r, c) {
            let k = choose|k: nat| level(i) == #[trigger] level(k) && at_level(k, r, c);
            lemma_decimals(i, k);
        } else {
            let j = choose|j: nat| level(i) == #[trigger] imp(j) && at_class(j, r, c);
            lemma_procs(i, j);
        }
    }
}

proof fn lemma_on_entry(n: nat, r: Root, c: nat)
    ensures
        on(n, "Entry"@, r, c) <==> at_entry(n, r, c),
{
    if on(n, "Entry"@, r, c) && !at_entry(n, r, c) {
        if exists|k: nat| "Entry"@ == #[trigger] level(k) && at_level(k, r, c) {
            let k = choose|k: nat| "Entry"@ == #[trigger] level(k) && at_level(k, r, c);
            lemma_procs(k, 0);
        } else {
            let j = choose|j: nat| "Entry"@ == #[trigger] imp(j) && at_class(j, r, c);
            lemma_procs(0, j);
        }
    }
}

proof fn lemma_on_class(n: nat, j: nat, r: Root, c: nat)
    ensures
        on(n, imp(j), r, c) <==> at_class(j, r, c),
{
    lemma_procs(0, j);
    if on(n, imp(j), r, c) {
        if exists|k: nat| imp(j) == #[trigger] level(k) && at_level(k, r, c) {
            let k = choose|k: nat| imp(j) == #[trigger] level(k) && at_level(k, r, c);
            lemma_procs(k, j);
        } else {
            let k = choose|k: nat| imp(j) == #[trigger] imp(k) && at_class(k, r, c);
            lemma_decimals(j, k);
        }
    }
}

/// A root is on one channel.
proof fn lemma_channel(n: nat, p: Name, r: Root, c: nat, d: nat)
    requires
        on(n, p, r, c),
        on(n, p, r, d),
    ensures
        c == d,
{
    if p == "Entry"@ {
        lemma_on_entry(n, r, c);
        lemma_on_entry(n, r, d);
        lemma_locals(0, 0);
    } else if exists|i: nat| p == #[trigger] level(i) && at_level(i, r, c) {
        let i = choose|i: nat| p == #[trigger] level(i) && at_level(i, r, c);
        lemma_on_level(n, i, r, d);
        lemma_locals(i, 0);
    } else {
        let j = choose|j: nat| p == #[trigger] imp(j) && at_class(j, r, c);
        lemma_on_class(n, j, r, d);
        lemma_locals(0, j);
    }
}

/// Bare paths on the same channel of `p`.
spec fn joined(n: nat, p: Name, a: Path, b: Path) -> bool {
    &&& a.steps.len() == 0
    &&& b.steps.len() == 0
    &&& exists|c: nat| #[trigger] on(n, p, a.root, c) && on(n, p, b.root, c)
}

/// The allocation `l` is on channel `c` of `p`.
spec fn kept(p: Name, c: nat, l: Name) -> bool {
    ||| p == "Entry"@ && (c == 1 && l == "lrecv"@ || c == 2 && l == "lfirst"@)
    ||| exists|j: nat| j >= 1 && p == #[trigger] imp(j)
}

spec fn carried(n: nat, p: Name, a: Path, v: Value) -> bool {
    match v {
        Value::Path(b) => joined(n, p, a, b),
        Value::Const(_) => false,
        Value::Alloc(l) => a.steps.len() == 0 && exists|c: nat| #[trigger]
            on(n, p, a.root, c) && kept(p, c, l),
    }
}

spec fn holds(n: nat, p: Name, id: Instance) -> bool {
    ||| exists|i: nat| i <= n && p == #[trigger] level(i) && id == climbed(i)
    ||| p == "Entry"@ && id == arrived(n)
}

/// The core says no more than the model.
spec fn bounded(q: Core, n: nat) -> bool {
    &&& forall|p: Name, a: Path, b: Path| #[trigger]
        q.edge.contains((p, a, b)) ==> joined(n, p, a, b)
    &&& forall|p: Name, a: Path, v: Value| #[trigger]
        q.points.contains((p, a, v)) ==> carried(n, p, a, v)
    &&& forall|p: Name, id: Instance| #[trigger] q.pending.contains((p, id)) ==> holds(n, p, id)
}

proof fn lemma_join(n: nat, p: Name, a: Path, b: Path, c: nat)
    requires
        a.steps.len() == 0,
        b.steps.len() == 0,
        on(n, p, a.root, c),
        on(n, p, b.root, c),
    ensures
        joined(n, p, a, b),
{
}

/// The placeholder is decided at the entry only, and there by the pinned receiver.
proof fn lemma_resolution(w: Setting, q: Core, t: nat, n: nat, p: Name, id: Instance, c: Name)
    requires
        facts(w.e, t, n),
        t >= 2,
        w.k > n,
        bounded(q, n),
        w.resolve(q, p, id, c),
    ensures
        p == "Entry"@,
        id == arrived(n),
        c == imp(0),
{
    let e = w.e;
    lemma_targets(e, t, n);
    lemma_called(e, t, n);
    assert(q.pending.contains((p, id)));
    assert(holds(n, p, id));
    if p != "Entry"@ {
        let i = choose|i: nat| i <= n && p == #[trigger] level(i) && id == climbed(i);
        lemma_climbed(i);
        lemma_procs(i, 0);
        assert(!w.stuck(q, p, id));
        let (l, y, g) = choose|l: Name, y: Name, g: Name|
            {
                &&& #[trigger] q.points.contains((p, Path::slot(id, 0), Value::Alloc(l)))
                &&& #[trigger] e.alloc_type.contains((l, y))
                &&& e.dispatches(id.stmt, g)
                &&& #[trigger] e.lookup.contains((y, g, c))
            };
        let k = choose|k: nat| #[trigger] on(n, p, Root::Slot(id, 0), k) && kept(p, k, l);
        assert(carried(n, p, Path::slot(id, 0), Value::Alloc(l)));
        let j = choose|j: nat| j >= 1 && p == #[trigger] imp(j);
        lemma_procs(i, j);
        assert(false);
    }
    assert(id == arrived(n)) by {
        if exists|i: nat| i <= n && p == #[trigger] level(i) && id == climbed(i) {
            let i = choose|i: nat| i <= n && p == #[trigger] level(i) && id == climbed(i);
            lemma_procs(i, 0);
        }
    }
    lemma_climbed(n);
    assert(id.stmt == rung(0));
    if w.blocked(q, p, id) {
        let (i, x) = choose|i: usize, x: Path| #[trigger]
            q.points.contains((p, Path::slot(id, i), Value::Path(x))) && e.decisive(id.stmt, i)
                && w.free_root(q, p, x.root);
        assert(joined(n, p, Path::slot(id, i), x));
        let k = choose|k: nat| #[trigger]
            on(n, p, Root::Slot(id, i), k) && on(n, p, x.root, k);
        lemma_on_entry(n, Root::Slot(id, i), k);
        lemma_on_entry(n, x.root, k);
        assert(false);
    }
    let (l, y, g) = choose|l: Name, y: Name, g: Name|
        {
            &&& #[trigger] q.points.contains((p, Path::slot(id, 0), Value::Alloc(l)))
            &&& #[trigger] e.alloc_type.contains((l, y))
            &&& e.dispatches(id.stmt, g)
            &&& #[trigger] e.lookup.contains((y, g, c))
        };
    assert(carried(n, p, Path::slot(id, 0), Value::Alloc(l)));
    let k = choose|k: nat| #[trigger] on(n, p, Root::Slot(id, 0), k) && kept(p, k, l);
    lemma_on_entry(n, Root::Slot(id, 0), k);
    if exists|j: nat| j >= 1 && p == #[trigger] imp(j) {
        let j = choose|j: nat| j >= 1 && p == #[trigger] imp(j);
        lemma_procs(0, j);
    }
    assert(l == "lrecv"@);
    assert(type_form((l, y)));
    lemma_locals(0, 0);
    if exists|j: nat| l == "l@"@ + #[trigger] imp(j) {
        let j = choose|j: nat| l == "l@"@ + #[trigger] imp(j);
        lemma_locals(0, j);
        assert(home(j) == l);
    }
    assert(y == class(0));
    assert(look_form((y, g, c), t));
    let j = choose|j: nat|
        j < t && y == class(j) && g == "poly(Obj)"@ && c == #[trigger] imp(j);
    lemma_decimals(0, j);
}

/// Where a callsite of the chain puts a root.
proof fn lemma_placed(
    w: Setting,
    q: Core,
    t: nat,
    n: nat,
    s: Name,
    c: Name,
    p: Name,
    i: nat,
    from: Root,
    to: Root,
    k: nat,
)
    requires
        facts(w.e, t, n),
        t >= 2,
        climbs(n, s, c, p, i),
        on(n, c, from, k),
        w.root_map(q, s, from, to),
    ensures
        on(n, p, to, if i > n && k == 3 {
            2
        } else {
            k
        }),
{
    let e = w.e;
    let below = (i - 1) as nat;
    lemma_targets(e, t, n);
    lemma_on_level(n, below, from, k);
    lemma_locals(below, 0);
    let d: nat = if i > n && k == 3 {
        2
    } else {
        k
    };
    lemma_statements(i, 0);
    lemma_statements(0, 0);
    if i <= n {
        lemma_on_level(n, i, to, d);
        lemma_decimals(i, 0);
    } else {
        lemma_on_entry(n, to, d);
    }
    match (from, to) {
        (Root::Param(y, x), Root::Var(a)) => {
            assert(arg_form((s, x, a)));
            if exists|j: nat|
                j >= 1 && s == #[trigger] rung(j) && ((x == 0 && a == this_of(j)) || (x == 1 && a
                    == recv_of(j)) || (x == 2 && a == obj_of(j))) {
                let j = choose|j: nat|
                    j >= 1 && s == #[trigger] rung(j)
                        && ((x == 0 && a == this_of(j)) || (x == 1 && a
                        == recv_of(j)) || (x == 2 && a == obj_of(j)));
                lemma_decimals(i, j);
                lemma_statements(j, 0);
            }
        },
        (Root::Ret(y), Root::Var(a)) => {
            assert(bind_form((s, a)));
            if exists|j: nat| s == #[trigger] rung(j) && a == res_of(j) {
                let j = choose|j: nat| s == #[trigger] rung(j) && a == res_of(j);
                lemma_decimals(i, j);
                lemma_statements(j, 0);
            }
        },
        (Root::Slot(id, x), Root::Slot(id2, y)) => {
            assert(id == climbed(below));
        },
        (Root::Res(id), Root::Res(id2)) => {
            assert(id == climbed(below));
        },
        _ => {},
    }
}

proof fn lemma_edges(w: Setting, q: Core, t: nat, n: nat, p: Name, a: Path, b: Path)
    requires
        facts(w.e, t, n),
        t >= 2,
        w.k > n,
        bounded(q, n),
        w.edge_from(q, p, a, b),
    ensures
        joined(n, p, a, b),
{
    let e = w.e;
    lemma_targets(e, t, n);
    assert forall|x: Path| #[trigger] q.path_used(p, x) implies x.steps.len() == 0 by {
        if exists|y: Path| q.edge.contains((p, x, y)) {
            let y = choose|y: Path| q.edge.contains((p, x, y));
            assert(joined(n, p, x, y));
        } else if exists|y: Path| q.edge.contains((p, y, x)) {
            let y = choose|y: Path| q.edge.contains((p, y, x));
            assert(joined(n, p, y, x));
        } else {
            let v = choose|v: Value| q.points.contains((p, x, v));
            assert(carried(n, p, x, v));
        }
    }
    assert(!w.edge_by_extending_sup(q, p, a, b));
    assert(!w.edge_by_extending_sub(q, p, a, b));
    assert(forall|s: Name| !e.index_stmt(s));
    assert(!w.edge_by_load(q, p, a, b));
    assert(!w.edge_by_store(q, p, a, b));
    if w.edge_by_statement(p, a, b) {
        let s = choose|s: Name| #[trigger] e.stands_in(s, p) && e.says(s, a, b);
        assert(e.critical(s) && e.wires(s, a, b));
        let id = Instance::origin(s);
        lemma_where(e, t, n, s, p);
        assert(s == rung(0));
        assert(p == level(0));
        assert(id == climbed(0));
        lemma_statements(0, 0);
        if exists|i: usize, v: Name| #[trigger]
            e.actual_arg.contains((s, i, v)) && a == Path::slot(id, i) && b == Path::var(v) {
            let (i, v) = choose|i: usize, v: Name| #[trigger]
                e.actual_arg.contains((s, i, v)) && a == Path::slot(id, i) && b == Path::var(v);
            assert(arg_form((s, i, v)));
            if exists|j: nat|
                j >= 1 && s == #[trigger] rung(j) && ((i == 0 && v == this_of(j)) || (i == 1 && v
                    == recv_of(j)) || (i == 2 && v == obj_of(j))) {
                let j = choose|j: nat|
                    j >= 1 && s == #[trigger] rung(j)
                        && ((i == 0 && v == this_of(j)) || (i == 1 && v
                        == recv_of(j)) || (i == 2 && v == obj_of(j)));
                lemma_decimals(0, j);
            }
            let c = (i + 1) as nat;
            lemma_on_level(n, 0, a.root, c);
            lemma_on_level(n, 0, b.root, c);
            lemma_join(n, p, a, b, c);
        } else {
            let v = choose|v: Name| #[trigger]
                e.bind_ret.contains((s, v)) && a == Path::var(v) && b == Path::res(id);
            assert(bind_form((s, v)));
            let j = choose|j: nat| s == #[trigger] rung(j) && v == res_of(j);
            lemma_decimals(0, j);
            lemma_on_level(n, 0, a.root, 3);
            lemma_on_level(n, 0, b.root, 3);
            lemma_join(n, p, a, b, 3);
        }
    } else if w.edge_by_formal(p, a, b) {
        let (i, v) = choose|i: usize, v: Name| #[trigger]
            e.formal.contains((p, i, v)) && a == Path::var(v) && b == Path::param(p, i);
        lemma_formal(e, t, n, p, i, v);
        lemma_join(n, p, a, b, i as nat);
    } else if w.edge_by_return(p, a, b) {
        let v = choose|v: Name| #[trigger]
            e.ret.contains((p, v)) && a == Path::ret(p) && b == Path::var(v);
        let c = lemma_return(e, t, n, p, v);
        lemma_join(n, p, a, b, c);
    } else if w.edge_by_call(q, p, a, b) {
        let (s, c, x, y) = choose|s: Name, c: Name, x: Path, y: Path|
            {
                &&& #[trigger] e.eff_direct(s, c)
                &&& e.stands_in(s, p)
                &&& #[trigger] q.points.contains((c, x, Value::Path(y)))
                &&& w.root_map(q, s, x.root, a.root)
                &&& w.root_map(q, s, y.root, b.root)
                &&& a.steps == x.steps
                &&& b.steps == y.steps
            };
        assert(carried(n, c, x, Value::Path(y)));
        let i = lemma_calls(e, t, n, s, c, p);
        let k = choose|k: nat| #[trigger] on(n, c, x.root, k) && on(n, c, y.root, k);
        lemma_placed(w, q, t, n, s, c, p, i, x.root, a.root, k);
        lemma_placed(w, q, t, n, s, c, p, i, y.root, b.root, k);
        let d: nat = if i > n && k == 3 {
            2
        } else {
            k
        };
        lemma_join(n, p, a, b, d);
    } else {
        assert(w.edge_by_dispatch(q, p, a, b));
        let (id, c, x, y) = choose|id: Instance, c: Name, x: Path, y: Path|
            {
                &&& #[trigger] w.resolve(q, p, id, c)
                &&& #[trigger] q.points.contains((c, x, Value::Path(y)))
                &&& crit_root(c, id, x.root, w.k) == Some(a.root)
                &&& crit_root(c, id, y.root, w.k) == Some(b.root)
                &&& a.steps == x.steps
                &&& b.steps == y.steps
            };
        lemma_resolution(w, q, t, n, p, id, c);
        assert(carried(n, c, x, Value::Path(y)));
        let k = choose|k: nat| #[trigger] on(n, c, x.root, k) && on(n, c, y.root, k);
        lemma_on_class(n, 0, x.root, k);
        lemma_on_class(n, 0, y.root, k);
        lemma_on_entry(n, a.root, k + 1);
        lemma_on_entry(n, b.root, k + 1);
        lemma_join(n, p, a, b, k + 1);
    }
}

proof fn lemma_formal(e: Edb, t: nat, n: nat, p: Name, i: usize, v: Name)
    requires
        facts(e, t, n),
        e.formal.contains((p, i, v)),
    ensures
        on(n, p, Root::Var(v), i as nat),
        on(n, p, Root::Param(p, i), i as nat),
{
    let c = i as nat;
    assert(formal_form((p, i, v)));
    if p == "Entry"@ {
        lemma_on_entry(n, Root::Var(v), c);
        lemma_on_entry(n, Root::Param(p, i), c);
        assert forall|j: nat| p != #[trigger] imp(j) && p != level(j) by {
            lemma_procs(j, j);
        }
        assert forall|j: nat| p != #[trigger] level(j) by {
            lemma_procs(j, j);
        }
    } else if exists|j: nat|
        p == #[trigger] imp(j) && ((i == 0 && v == this_in(j)) || (i == 1 && v == obj_in(j))) {
        let j = choose|j: nat|
            p == #[trigger] imp(j) && ((i == 0 && v == this_in(j)) || (i == 1 && v == obj_in(j)));
        lemma_on_class(n, j, Root::Var(v), c);
        lemma_on_class(n, j, Root::Param(p, i), c);
    } else {
        let j = choose|j: nat|
            p == #[trigger] level(j) && ((i == 0 && v == this_of(j)) || (i == 1 && v == recv_of(j))
                || (i == 2 && v == obj_of(j)));
        lemma_on_level(n, j, Root::Var(v), c);
        lemma_on_level(n, j, Root::Param(p, i), c);
    }
}

proof fn lemma_return(e: Edb, t: nat, n: nat, p: Name, v: Name) -> (c: nat)
    requires
        facts(e, t, n),
        e.ret.contains((p, v)),
    ensures
        on(n, p, Root::Var(v), c),
        on(n, p, Root::Ret(p), c),
{
    assert(ret_form((p, v)));
    if (p, v) == (imp(0), obj_in(0)) {
        lemma_on_class(n, 0, Root::Var(v), 1);
        lemma_on_class(n, 0, Root::Ret(p), 1);
        1
    } else if exists|j: nat| j >= 1 && p == #[trigger] imp(j) && v == temp(j) {
        let j = choose|j: nat| j >= 1 && p == #[trigger] imp(j) && v == temp(j);
        lemma_on_class(n, j, Root::Var(v), 2);
        lemma_on_class(n, j, Root::Ret(p), 2);
        2
    } else {
        let i = choose|i: nat| p == #[trigger] level(i) && v == res_of(i);
        lemma_on_level(n, i, Root::Var(v), 3);
        lemma_on_level(n, i, Root::Ret(p), 3);
        3
    }
}

/// Nothing concrete is published below the entry.
proof fn lemma_symbolic(q: Core, n: nat, i: nat, a: Path, v: Value)
    requires
        bounded(q, n),
        q.points.contains((level(i), a, v)) || q.points.contains((imp(0), a, v)),
    ensures
        v is Path,
{
    if q.points.contains((level(i), a, v)) {
        assert(carried(n, level(i), a, v));
        lemma_procs(i, 0);
        if v is Alloc {
            let c = choose|c: nat| #[trigger]
                on(n, level(i), a.root, c) && kept(level(i), c, v->Alloc_0);
            let j = choose|j: nat| j >= 1 && level(i) == #[trigger] imp(j);
            lemma_procs(i, j);
        }
    } else {
        assert(carried(n, imp(0), a, v));
        lemma_procs(0, 0);
        if v is Alloc {
            let c = choose|c: nat| #[trigger]
                on(n, imp(0), a.root, c) && kept(imp(0), c, v->Alloc_0);
            let j = choose|j: nat| j >= 1 && imp(0) == #[trigger] imp(j);
            lemma_decimals(0, j);
        }
    }
}

proof fn lemma_points(w: Setting, q: Core, t: nat, n: nat, p: Name, a: Path, v: Value)
    requires
        facts(w.e, t, n),
        t >= 2,
        w.k > n,
        bounded(q, n),
        w.points_from(q, p, a, v),
    ensures
        carried(n, p, a, v),
{
    let e = w.e;
    if w.points_by_statement(p, a, v) {
        let s = choose|s: Name| #[trigger] e.stands_in(s, p) && e.holds(s, a, v);
        let (x, l) = choose|x: Name, l: Name| #[trigger]
            e.alloc.contains((s, x, l)) && a == Path::var(x) && v == Value::Alloc(l);
        assert(alloc_form((s, x, l)));
        lemma_where(e, t, n, s, p);
        if s == "E0"@ {
            assert forall|j: nat| s != "A@"@ + #[trigger] imp(j) by {
                lemma_statements(0, j);
                assert(birth(j) == "A@"@ + imp(j));
            }
            lemma_statements(0, 0);
            lemma_on_entry(n, a.root, 2);
            assert(kept(p, 2, l));
        } else if s == "E1"@ {
            assert forall|j: nat| s != "A@"@ + #[trigger] imp(j) by {
                lemma_statements(0, j);
                assert(birth(j) == "A@"@ + imp(j));
            }
            lemma_statements(0, 0);
            lemma_on_entry(n, a.root, 1);
            assert(kept(p, 1, l));
        } else {
            let j = choose|j: nat|
                j >= 1 && (s, x, l) == (birth(j), temp(j), home(j)) && s == "A@"@ + #[trigger] imp(
                    j,
                );
            lemma_on_class(n, j, a.root, 2);
            assert(kept(p, 2, l));
        }
    } else if w.points_by_flow(q, p, a, v) {
        let b = choose|b: Path| #[trigger]
            q.edge.contains((p, a, b)) && q.points.contains((p, b, v));
        assert(joined(n, p, a, b));
        assert(carried(n, p, b, v));
        let c = choose|c: nat| #[trigger] on(n, p, a.root, c) && on(n, p, b.root, c);
        match v {
            Value::Path(x) => {
                let d = choose|d: nat| #[trigger] on(n, p, b.root, d) && on(n, p, x.root, d);
                lemma_channel(n, p, b.root, c, d);
                lemma_join(n, p, a, x, c);
            },
            Value::Alloc(l) => {
                let d = choose|d: nat| #[trigger] on(n, p, b.root, d) && kept(p, d, l);
                lemma_channel(n, p, b.root, c, d);
            },
            Value::Const(x) => {},
        }
    } else if w.points_by_symbol(q, p, a, v) {
        assert(joined(n, p, a, v->Path_0));
    } else if w.points_by_call(q, p, a, v) {
        let (s, c, x) = choose|s: Name, c: Name, x: Path|
            {
                &&& #[trigger] e.eff_direct(s, c)
                &&& e.stands_in(s, p)
                &&& #[trigger] w.pub_points(q, c, x, v)
                &&& w.root_map(q, s, x.root, a.root)
                &&& a.steps == x.steps
            };
        let i = lemma_calls(e, t, n, s, c, p);
        lemma_symbolic(q, n, (i - 1) as nat, x, v);
    } else {
        let (id, c, x) = choose|id: Instance, c: Name, x: Path|
            {
                &&& #[trigger] w.resolve(q, p, id, c)
                &&& #[trigger] w.pub_points(q, c, x, v)
                &&& crit_root(c, id, x.root, w.k) == Some(a.root)
                &&& a.steps == x.steps
            };
        lemma_resolution(w, q, t, n, p, id, c);
        lemma_symbolic(q, n, 0, x, v);
    }
}

proof fn lemma_holders(w: Setting, q: Core, t: nat, n: nat, p: Name, id: Instance)
    requires
        facts(w.e, t, n),
        t >= 2,
        w.k > n,
        bounded(q, n),
        w.pending_from(q, p, id),
    ensures
        holds(n, p, id),
{
    let e = w.e;
    lemma_targets(e, t, n);
    if e.crit_origin(p, id.stmt, id) {
        lemma_where(e, t, n, id.stmt, p);
        assert(id.stmt == rung(0));
        assert(p == level(0));
    } else if w.pending_by_call(q, p, id) {
        let (s, c, id0) = choose|s: Name, c: Name, id0: Instance|
            {
                &&& #[trigger] e.eff_direct(s, c)
                &&& e.stands_in(s, p)
                &&& #[trigger] w.blocked(q, c, id0)
                &&& id0.depth() < w.k
                &&& id == id0.push(s)
            };
        let i = lemma_calls(e, t, n, s, c, p);
        let below = (i - 1) as nat;
        assert(holds(n, c, id0));
        lemma_procs(below, 0);
        let j = choose|j: nat| j <= n && c == #[trigger] level(j) && id0 == climbed(j);
        lemma_decimals(below, j);
        if i <= n {
            assert(p == level(i) && id == climbed(i));
        }
    } else {
        let (id0, c, id2) = choose|id0: Instance, c: Name, id2: Instance|
            {
                &&& #[trigger] w.resolve(q, p, id0, c)
                &&& #[trigger] q.pending.contains((c, id2))
                &&& id2.nest(id0).depth() <= w.k
                &&& id == id2.nest(id0)
            };
        lemma_resolution(w, q, t, n, p, id0, c);
        assert(holds(n, c, id2));
        lemma_procs(0, 0);
        let j = choose|j: nat| j <= n && c == #[trigger] level(j) && id2 == climbed(j);
        lemma_procs(j, 0);
    }
}

proof fn lemma_bounded(w: Setting, m: Core, t: nat, n: nat)
    requires
        w.least(Core::nothing(), m),
        facts(w.e, t, n),
        t >= 2,
        w.k > n,
    ensures
        bounded(m, n),
{
    let edge = |p: Name, a: Path, b: Path| joined(n, p, a, b);
    let points = |p: Name, a: Path, v: Value| carried(n, p, a, v);
    let pending = |p: Name, id: Instance| holds(n, p, id);
    let q = narrowed(m, edge, points, pending);
    assert(bounded(q, n));
    assert forall|p: Name, a: Path, b: Path| #[trigger] w.edge_from(q, p, a, b) implies edge(
        p,
        a,
        b,
    ) by {
        lemma_edges(w, q, t, n, p, a, b);
    }
    assert forall|p: Name, a: Path, v: Value| #[trigger] w.points_from(q, p, a, v) implies points(
        p,
        a,
        v,
    ) by {
        lemma_points(w, q, t, n, p, a, v);
    }
    assert forall|p: Name, id: Instance| #[trigger] w.pending_from(q, p, id) implies pending(
        p,
        id,
    ) by {
        lemma_holders(w, q, t, n, p, id);
    }
    law_rule_induction(w, m, edge, points, pending);
    assert forall|p: Name, a: Path, b: Path| #[trigger] m.edge.contains((p, a, b)) implies joined(
        n,
        p,
        a,
        b,
    ) by {
        assert(edge(p, a, b));
    }
    assert forall|p: Name, a: Path, v: Value| #[trigger] m.points.contains((p, a, v))
        implies carried(
        n,
        p,
        a,
        v,
    ) by {
        assert(points(p, a, v));
    }
    assert forall|p: Name, id: Instance| #[trigger] m.pending.contains((p, id)) implies holds(
        n,
        p,
        id,
    ) by {
        assert(pending(p, id));
    }
}

// ---------------------------------------------------------------------------
// The climb
// ---------------------------------------------------------------------------

/// Level `i` holds the placeholder, and its caller decides it.
spec fn waits(m: Core, i: nat) -> bool {
    &&& m.pending.contains((level(i), climbed(i)))
    &&& m.points.contains(
        (level(i), Path::slot(climbed(i), 0), Value::Path(Path::param(level(i), 1))),
    )
}

/// What the receiver of a level holds is what its caller passes.
proof fn lemma_passed(w: Setting, m: Core, t: nat, n: nat, i: nat)
    requires
        w.closed_under(m),
        facts(w.e, t, n),
        i <= n,
        m.edge.contains((level(i), Path::slot(climbed(i), 0), Path::var(recv_of(i)))),
    ensures
        m.points.contains(
            (level(i), Path::slot(climbed(i), 0), Value::Path(Path::param(level(i), 1))),
        ),
{
    let p = level(i);
    let (a, b, c) = (Path::slot(climbed(i), 0), Path::var(recv_of(i)), Path::param(p, 1));
    assert(e_level(w.e, i));
    assert(w.e.formal.contains((p, 1usize, recv_of(i))));
    assert(w.edge_by_formal(p, b, c));
    assert(w.edge_from(m, p, b, c));
    assert(m.edge.contains((p, b, c)));
    assert(w.points_by_symbol(m, p, b, Value::Path(c)));
    assert(w.points_from(m, p, b, Value::Path(c)));
    assert(w.points_by_flow(m, p, a, Value::Path(c)));
    assert(w.points_from(m, p, a, Value::Path(c)));
}

proof fn lemma_waiting_is_blocked(w: Setting, m: Core, t: nat, n: nat, i: nat)
    requires
        facts(w.e, t, n),
        i <= n,
        waits(m, i),
    ensures
        w.blocked(m, level(i), climbed(i)),
        w.e.operand(climbed(i).stmt, 0),
{
    let e = w.e;
    lemma_climbed(i);
    assert(e_level(e, 0));
    assert(e_level(e, i));
    assert(e.virtual_call.contains((rung(0), recv_of(0), "poly(Obj)"@)));
    assert(e.call_stmt(rung(0)));
    assert(e.decisive(climbed(i).stmt, 0));
    assert(e.actual_arg.contains((rung(0), 0usize, recv_of(0))));
    assert(e.formal.contains((level(i), 1usize, recv_of(i))));
    assert(w.free_root(m, level(i), Path::param(level(i), 1).root));
    assert(m.points.contains(
        (level(i), Path::slot(climbed(i), 0), Value::Path(Path::param(level(i), 1))),
    ));
}

/// A waiting placeholder moves up, and its slot with it.
proof fn lemma_up(
    w: Setting,
    m: Core,
    t: nat,
    n: nat,
    i: nat,
    s: Name,
    p: Name,
    x: Name,
)
    requires
        w.closed_under(m),
        facts(w.e, t, n),
        t >= 2,
        w.k > n,
        i <= n,
        waits(m, i),
        w.e.direct_call.contains((s, level(i))),
        w.e.stands_in(s, p),
        w.e.actual_arg.contains((s, 1usize, x)),
    ensures
        m.pending.contains((p, climbed(i).push(s))),
        m.edge.contains((p, Path::slot(climbed(i).push(s), 0), Path::var(x))),
{
    let e = w.e;
    let (c, id) = (level(i), climbed(i));
    lemma_targets(e, t, n);
    lemma_climbed(i);
    lemma_waiting_is_blocked(w, m, t, n, i);
    assert(e.eff_direct(s, c));
    assert(w.pending_by_call(m, p, id.push(s)));
    assert(w.pending_from(m, p, id.push(s)));
    assert(w.moves(m, s, id));
    let (a, b) = (Path::slot(id, 0), Path::param(c, 1));
    let (sup, sub) = (Path::slot(id.push(s), 0), Path::var(x));
    assert(w.root_map(m, s, a.root, sup.root));
    assert(w.root_map(m, s, b.root, sub.root));
    assert(m.points.contains((c, a, Value::Path(b))));
    assert(w.edge_by_call(m, p, sup, sub));
    assert(w.edge_from(m, p, sup, sub));
}

proof fn lemma_waits(w: Setting, m: Core, t: nat, n: nat, i: nat)
    requires
        w.closed_under(m),
        facts(w.e, t, n),
        t >= 2,
        w.k > n,
        i <= n,
    ensures
        waits(m, i),
    decreases i,
{
    let e = w.e;
    lemma_targets(e, t, n);
    assert(e_level(e, i));
    if i == 0 {
        let (s, p, id) = (rung(0), level(0), climbed(0));
        assert(e.crit_origin(p, s, id));
        assert(w.pending_from(m, p, id));
        let (a, b) = (Path::slot(id, 0), Path::var(recv_of(0)));
        assert(e.actual_arg.contains((s, 0usize, recv_of(0))));
        assert(e.wires(s, a, b));
        assert(e.says(s, a, b));
        assert(w.edge_by_statement(p, a, b));
        assert(w.edge_from(m, p, a, b));
    } else {
        let below = (i - 1) as nat;
        lemma_waits(w, m, t, n, below);
        lemma_up(w, m, t, n, below, rung(i), level(i), recv_of(i));
    }
    lemma_passed(w, m, t, n, i);
}

proof fn lemma_resolved(w: Setting, m: Core, t: nat, n: nat)
    requires
        w.closed_under(m),
        facts(w.e, t, n),
        t >= 2,
        w.k > n,
    ensures
        w.resolve(m, "Entry"@, arrived(n), imp(0)),
{
    let e = w.e;
    let (p, id) = ("Entry"@, arrived(n));
    lemma_waits(w, m, t, n, n);
    lemma_up(w, m, t, n, n, "E2"@, p, "recv"@);
    lemma_called(e, t, n);
    lemma_climbed(n);
    assert(e_level(e, 0));
    let (a, b, v) = (Path::slot(id, 0), Path::var("recv"@), Value::Alloc("lrecv"@));
    assert(e.alloc.contains(("E1"@, "recv"@, "lrecv"@)));
    assert(e.holds("E1"@, b, v));
    assert(w.points_by_statement(p, b, v));
    assert(w.points_from(m, p, b, v));
    assert(w.points_by_flow(m, p, a, v));
    assert(w.points_from(m, p, a, v));
    assert(e.virtual_call.contains((rung(0), recv_of(0), "poly(Obj)"@)));
    assert(e.dispatches(id.stmt, "poly(Obj)"@));
    assert(e.alloc_type.contains(("lrecv"@, class(0))));
    assert(e.lookup.contains((class(0), "poly(Obj)"@, imp(0))));
    assert(w.selects(m, p, id, imp(0)));
}

/// With a limit of more than `n`, the placeholder of a chain of `n` callers climbs the
/// whole way and is resolved exactly once: at the entry, to the implementation of the
/// class that is pinned there.
pub proof fn law_chain_resolves_once_at_the_top(
    h: &HybridAnalysis,
    prog: Program,
    n: nat,
    targets: nat,
)
    requires
        written(prog, chain_sheet(n, targets)),
        targets >= 2,
        analysed(h, prog),
        h.k_limit > n,
    ensures
        tuples(h.resolve@) == set![("Entry"@, arrived(n), imp(0))],
        forall|i: nat| i <= n ==> tuples(h.pending@).contains((#[trigger] level(i), climbed(i))),
        tuples(h.pending@).contains(("Entry"@, arrived(n))),
{
    let (w, m, s) = (h.setting(), h.said(), chain_sheet(n, targets));
    lemma_reads(prog, s);
    lemma_told(n, targets);
    assert(reads(w.e, s));
    lemma_facts(w.e, s, targets, n);
    lemma_bounded(w, m, targets, n);
    lemma_resolved(w, m, targets, n);
    let list = tuples(h.resolve@);
    assert(list == crate::report::resolve_set(w, m));
    assert forall|x: (Name, Instance, Name)| list.contains(x) implies x == (
        "Entry"@,
        arrived(n),
        imp(0),
    ) by {
        lemma_resolution(w, m, targets, n, x.0, x.1, x.2);
    }
    assert(list.contains(("Entry"@, arrived(n), imp(0))));
    assert(list =~= set![("Entry"@, arrived(n), imp(0))]);
    assert forall|i: nat| i <= n implies tuples(h.pending@).contains(
        (#[trigger] level(i), climbed(i)),
    ) by {
        lemma_waits(w, m, targets, n, i);
    }
}

} // verus!
