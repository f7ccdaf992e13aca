//! What the remaining families of programs look like, row by row.
use vstd::prelude::*;

use crate::access_path::{Path, Value};
use crate::analysis::HybridAnalysis;
use crate::climbing::{arrived, imp, law_chain_resolves_once_at_the_top};
use crate::families::{
    self, dead_receiver_sheet, fanin_sheet, fields_chain_sheet, fields_sheet, mid_count,
    recursive_field_sheet, wide_sheet, with_call_of, with_class, with_classes, with_feeder,
    with_feeders, with_leaf, with_leaf_merges, with_leaf_objects, with_loads, with_mid_calls,
    with_mids, with_reader, with_readers, with_top_calls, with_wide_leaf, with_wide_leaves,
};
use crate::ir::{Name, Program};
use crate::laws::analysed;
use crate::levels::{forked, law_every_level_forks};
use crate::merging::{law_merges_collect_what_went_in, merge, place_of};
use crate::sheet::{lines_of, sheet_of, Sheet};
use crate::text::decimal;
use crate::tuples::tuples;

verus! {

// ---------------------------------------------------------------------------
// Field loads in a row
// ---------------------------------------------------------------------------

/// Load `i` of a chain of field loads: out of the variable before, into its own.
pub open spec fn load_row(i: int) -> (Name, Name, Name, Name) {
    (
        "F"@ + decimal((i + 1) as nat),
        "y"@ + decimal((i + 1) as nat),
        "y"@ + decimal(i as nat),
        "f"@ + decimal((i + 1) as nat),
    )
}

proof fn lemma_loads(s: Sheet, n: nat)
    ensures
        with_loads(s, n) == (Sheet {
            load_field: s.load_field + Seq::new(n, |i: int| load_row(i)),
            in_proc: with_loads(s, n).in_proc,
            ..s
        }),
        with_loads(s, n).in_proc.len() == s.in_proc.len() + n,
        lines_of(with_loads(s, n).in_proc, "F"@) == lines_of(s.in_proc, "F"@) + n,
        forall|j: int|
            0 <= j < s.in_proc.len() ==> #[trigger] with_loads(s, n).in_proc[j] == s.in_proc[j],
        forall|i: int|
            0 <= i < n ==> #[trigger] with_loads(s, n).in_proc[s.in_proc.len() + i] == (
                "F"@ + decimal((i + 1) as nat),
                "F"@,
                (lines_of(s.in_proc, "F"@) + i) as usize,
            ),
    decreases n,
{
    if n == 0 {
        assert(s.load_field + Seq::new(0, |i: int| load_row(i)) =~= s.load_field);
    } else {
        let m = (n - 1) as nat;
        lemma_loads(s, m);
        let was = with_loads(s, m);
        let now = with_loads(s, n);
        assert(now.in_proc.drop_last() =~= was.in_proc);
        assert(now.load_field =~= s.load_field + Seq::new(n, |i: int| load_row(i)));
    }
}

/// The program of `n` field loads is one procedure: it copies its parameter, reads one
/// field after the other, each off the variable before, and returns the last.
pub proof fn law_fields_are_read_in_a_row(n: usize, prog: Program, i: int)
    requires
        call_ensures(families::fields, (n,), prog),
    ensures
        ({
            let s = sheet_of(prog);
            &&& s.procedure == seq!["F"@]
            &&& s.formal == seq![("F"@, 0usize, "this@F"@), ("F"@, 1usize, "x@F"@)]
            &&& s.mov == seq![("F0"@, "y0"@, "x@F"@)]
            &&& s.load_field == Seq::new(n as nat, |i: int| load_row(i))
            &&& s.in_proc.len() == n + 1
            &&& s.in_proc[0] == ("F0"@, "F"@, 0usize)
            &&& 1 <= i <= n ==> s.in_proc[i] == ("F"@ + decimal(i as nat), "F"@, i as usize)
            &&& s.ret == seq![("F"@, "y"@ + decimal(n as nat))]
            &&& s.entry == seq!["F"@]
            &&& s.alloc.len() == 0 && s.direct_call.len() == 0 && s.virtual_call.len() == 0
        }),
{
    let s = sheet_of(prog);
    assert(s == fields_sheet(n as nat));
    let start = Sheet::blank().proc("F"@, seq!["this@F"@, "x@F"@]).mov(
        "F0"@,
        "F"@,
        "y0"@,
        "x@F"@,
    );
    lemma_loads(start, n as nat);
    assert(start.in_proc.drop_last() =~= Seq::empty());
    reveal_with_fuel(lines_of, 3);
    assert(s.procedure =~= seq!["F"@]);
    assert(s.formal =~= seq![("F"@, 0usize, "this@F"@), ("F"@, 1usize, "x@F"@)]);
    assert(s.mov =~= seq![("F0"@, "y0"@, "x@F"@)]);
    assert(s.load_field =~= Seq::new(n as nat, |i: int| load_row(i)));
    assert(s.in_proc[0] == start.in_proc[0]);
    if 1 <= i <= n {
        assert(s.in_proc[start.in_proc.len() + (i - 1)] == (
            "F"@ + decimal(i as nat),
            "F"@,
            i as usize,
        ));
    }
    assert(s.ret =~= seq![("F"@, "y"@ + decimal(n as nat))]);
    assert(s.entry =~= seq!["F"@]);
}

// ---------------------------------------------------------------------------
// Field loads along a chain of calls
// ---------------------------------------------------------------------------

/// The rows that reader `i` of a chain adds.
pub open spec fn reads_on(now: Sheet, was: Sheet, i: nat) -> bool {
    let me = "P"@ + decimal(i);
    let s = "C"@ + decimal(i);
    &&& now.procedure == was.procedure.push(me)
    &&& now.formal == was.formal.push((me, 0, "this@"@ + me)).push((me, 1, "x@"@ + me))
    &&& now.direct_call == was.direct_call.push((s, "P"@ + decimal((i - 1) as nat)))
    &&& now.actual_arg == was.actual_arg.push((s, 0, "this@"@ + me)).push((s, 1, "x@"@ + me))
    &&& now.bind_ret == was.bind_ret.push((s, "t@"@ + me))
    &&& now.load_field == was.load_field.push(
        ("S"@ + decimal(i), "y@"@ + me, "t@"@ + me, "f"@ + decimal(i)),
    )
    &&& now.ret == was.ret.push((me, "y@"@ + me))
    &&& now.in_proc.len() == was.in_proc.len() + 2
    &&& now.alloc == was.alloc && now.mov == was.mov && now.virtual_call == was.virtual_call
}

proof fn lemma_reader(s: Sheet, i: nat)
    ensures
        reads_on(with_reader(s, i), s, i),
{
    let me = "P"@ + decimal(i);
    let c = "C"@ + decimal(i);
    let now = with_reader(s, i);
    assert(now.formal =~= s.formal.push((me, 0, "this@"@ + me)).push((me, 1, "x@"@ + me)));
    assert(now.actual_arg =~= s.actual_arg.push((c, 0, "this@"@ + me)).push(
        (c, 1, "x@"@ + me),
    ));
}

proof fn lemma_readers(s: Sheet, n: nat, i: int)
    requires
        1 <= i <= n,
    ensures
        ({
            let t = with_readers(s, n);
            let me = "P"@ + decimal(i as nat);
            let below = "P"@ + decimal((i - 1) as nat);
            &&& t.procedure.len() == s.procedure.len() + n
            &&& t.procedure[s.procedure.len() + i - 1] == me
            &&& t.direct_call.len() == s.direct_call.len() + n
            &&& t.direct_call[s.direct_call.len() + i - 1] == ("C"@ + decimal(i as nat), below)
            &&& t.load_field.len() == s.load_field.len() + n
            &&& t.load_field[s.load_field.len() + i - 1] == (
                "S"@ + decimal(i as nat),
                "y@"@ + me,
                "t@"@ + me,
                "f"@ + decimal(i as nat),
            )
            &&& t.bind_ret.len() == s.bind_ret.len() + n
            &&& t.bind_ret[s.bind_ret.len() + i - 1] == ("C"@ + decimal(i as nat), "t@"@ + me)
            &&& t.ret.len() == s.ret.len() + n
            &&& t.ret[s.ret.len() + i - 1] == (me, "y@"@ + me)
            &&& t.actual_arg.len() == s.actual_arg.len() + 2 * n
            &&& t.actual_arg[s.actual_arg.len() + 2 * i - 2] == (
                "C"@ + decimal(i as nat),
                0usize,
                "this@"@ + me,
            )
            &&& t.actual_arg[s.actual_arg.len() + 2 * i - 1] == (
                "C"@ + decimal(i as nat),
                1usize,
                "x@"@ + me,
            )
            &&& t.alloc == s.alloc && t.mov == s.mov && t.virtual_call == s.virtual_call
        }),
    decreases n,
{
    let m = (n - 1) as nat;
    let was = with_readers(s, m);
    lemma_reader(was, n);
    if m > 0 {
        lemma_readers(
            s,
            m,
            if i <= m {
                i
            } else {
                1
            },
        );
    }
}

/// In the chain of `n` readers each calls the one below with its own formals, reads a
/// field of its own off what comes back, and returns it; the bottom one reads the first
/// field off its parameter, and the entry calls the top one with an object.
pub proof fn law_readers_read_what_the_one_below_returns(n: usize, prog: Program, i: int)
    requires
        call_ensures(families::fields_chain, (n,), prog),
        1 <= i <= n,
    ensures
        ({
            let s = sheet_of(prog);
            let me = "P"@ + decimal(i as nat);
            let c = "C"@ + decimal(i as nat);
            &&& s.procedure.len() == n + 2 && s.procedure[0] == "P0"@ && s.procedure[i] == me
            &&& s.direct_call.len() == n + 1
            &&& s.direct_call[i - 1] == (c, "P"@ + decimal((i - 1) as nat))
            &&& s.direct_call[n as int] == ("E1"@, "P"@ + decimal(n as nat))
            &&& s.actual_arg.len() == 2 * n + 2
            &&& s.actual_arg[2 * i - 2] == (c, 0usize, "this@"@ + me)
            &&& s.actual_arg[2 * i - 1] == (c, 1usize, "x@"@ + me)
            &&& s.actual_arg[2 * n + 1] == ("E1"@, 1usize, "o"@)
            &&& s.bind_ret.len() == n + 1 && s.bind_ret[i - 1] == (c, "t@"@ + me)
            &&& s.load_field.len() == n + 1
            &&& s.load_field[0] == ("S0"@, "y@P0"@, "x@P0"@, "f0"@)
            &&& s.load_field[i] == (
                "S"@ + decimal(i as nat),
                "y@"@ + me,
                "t@"@ + me,
                "f"@ + decimal(i as nat),
            )
            &&& s.ret.len() == n + 1 && s.ret[0] == ("P0"@, "y@P0"@)
            &&& s.ret[i] == (me, "y@"@ + me)
            &&& s.alloc == seq![("E0"@, "o"@, "lo"@)]
            &&& s.entry == seq!["Entry"@]
            &&& s.mov.len() == 0 && s.virtual_call.len() == 0
        }),
{
    let s = sheet_of(prog);
    assert(s == fields_chain_sheet(n as nat));
    let start = Sheet::blank().proc("P0"@, seq!["this@P0"@, "x@P0"@]).load_field(
        "S0"@,
        "P0"@,
        "y@P0"@,
        "x@P0"@,
        "f0"@,
    ).ret("P0"@, "y@P0"@);
    lemma_readers(start, n as nat, i);
    lemma_prefix(start, n as nat);
    let t = with_readers(start, n as nat);
    lemma_call_of(t, "P"@ + decimal(n as nat));
    assert(start.alloc =~= Seq::empty());
    assert(s.alloc =~= seq![("E0"@, "o"@, "lo"@)]);
    assert(s.entry =~= seq!["Entry"@]) by {
        lemma_no_entry(start, n as nat);
    }
}

proof fn lemma_prefix(s: Sheet, n: nat)
    requires
        s.procedure.len() > 0,
        s.load_field.len() > 0,
        s.ret.len() > 0,
    ensures
        with_readers(s, n).procedure.len() > 0,
        with_readers(s, n).load_field.len() > 0,
        with_readers(s, n).ret.len() > 0,
        with_readers(s, n).procedure[0] == s.procedure[0],
        with_readers(s, n).load_field[0] == s.load_field[0],
        with_readers(s, n).ret[0] == s.ret[0],
    decreases n,
{
    if n > 0 {
        lemma_prefix(s, (n - 1) as nat);
        lemma_reader(with_readers(s, (n - 1) as nat), n);
    }
}

proof fn lemma_no_entry(s: Sheet, n: nat)
    ensures
        with_readers(s, n).entry == s.entry,
    decreases n,
{
    if n > 0 {
        lemma_no_entry(s, (n - 1) as nat);
    }
}

proof fn lemma_call_of(s: Sheet, top: Name)
    ensures
        ({
            let t = with_call_of(s, top);
            &&& t.procedure == s.procedure.push("Entry"@)
            &&& t.formal == s.formal.push(("Entry"@, 0, "this@Entry"@))
            &&& t.alloc == s.alloc.push(("E0"@, "o"@, "lo"@))
            &&& t.alloc_type == s.alloc_type.push(("lo"@, "Obj"@))
            &&& t.direct_call == s.direct_call.push(("E1"@, top))
            &&& t.actual_arg == s.actual_arg.push(("E1"@, 0, "this@Entry"@)).push(
                ("E1"@, 1, "o"@),
            )
            &&& t.bind_ret == s.bind_ret.push(("E1"@, "res"@))
            &&& t.entry == s.entry.push("Entry"@)
            &&& t.mov == s.mov && t.load_field == s.load_field && t.ret == s.ret
            &&& t.virtual_call == s.virtual_call && t.lookup == s.lookup
        }),
{
    let t = with_call_of(s, top);
    assert(t.formal =~= s.formal.push(("Entry"@, 0, "this@Entry"@)));
    assert(t.actual_arg =~= s.actual_arg.push(("E1"@, 0, "this@Entry"@)).push(
        ("E1"@, 1, "o"@),
    ));
}

// ---------------------------------------------------------------------------
// Two small programs
// ---------------------------------------------------------------------------

/// The recursive program reads a field off its parameter, calls itself with what it read,
/// and returns what comes back; the entry calls it once.
pub proof fn law_the_recursive_program(prog: Program)
    requires
        call_ensures(families::recursive_field, (), prog),
    ensures
        ({
            let s = sheet_of(prog);
            &&& s.procedure == seq!["P"@, "Entry"@]
            &&& s.formal == seq![
                ("P"@, 0usize, "this@P"@),
                ("P"@, 1usize, "x@P"@),
                ("Entry"@, 0usize, "this@Entry"@),
            ]
            &&& s.load_field == seq![("S1"@, "y@P"@, "x@P"@, "f"@)]
            &&& s.direct_call == seq![("S2"@, "P"@), ("E1"@, "P"@)]
            &&& s.actual_arg == seq![
                ("S2"@, 0usize, "this@P"@),
                ("S2"@, 1usize, "y@P"@),
                ("E1"@, 0usize, "this@Entry"@),
                ("E1"@, 1usize, "o"@),
            ]
            &&& s.bind_ret == seq![("S2"@, "r@P"@), ("E1"@, "res"@)]
            &&& s.ret == seq![("P"@, "r@P"@)]
            &&& s.alloc == seq![("E0"@, "o"@, "lo"@)]
            &&& s.alloc_type == seq![("lo"@, "Obj"@)]
            &&& s.entry == seq!["Entry"@]
            &&& s.mov.len() == 0 && s.virtual_call.len() == 0 && s.lookup.len() == 0
        }),
{
    let s = sheet_of(prog);
    assert(s == recursive_field_sheet());
    let start = Sheet::blank().proc("P"@, seq!["this@P"@, "x@P"@]).load_field(
        "S1"@,
        "P"@,
        "y@P"@,
        "x@P"@,
        "f"@,
    ).call("S2"@, "P"@, "P"@, seq!["this@P"@, "y@P"@], "r@P"@).ret("P"@, "r@P"@);
    lemma_call_of(start, "P"@);
    assert(s.procedure =~= seq!["P"@, "Entry"@]);
    assert(s.formal =~= seq![
        ("P"@, 0usize, "this@P"@),
        ("P"@, 1usize, "x@P"@),
        ("Entry"@, 0usize, "this@Entry"@),
    ]);
    assert(s.load_field =~= seq![("S1"@, "y@P"@, "x@P"@, "f"@)]);
    assert(s.direct_call =~= seq![("S2"@, "P"@), ("E1"@, "P"@)]);
    assert(s.actual_arg =~= seq![
        ("S2"@, 0usize, "this@P"@),
        ("S2"@, 1usize, "y@P"@),
        ("E1"@, 0usize, "this@Entry"@),
        ("E1"@, 1usize, "o"@),
    ]);
    assert(s.bind_ret =~= seq![("S2"@, "r@P"@), ("E1"@, "res"@)]);
    assert(s.ret =~= seq![("P"@, "r@P"@)]);
    assert(s.alloc =~= seq![("E0"@, "o"@, "lo"@)]);
    assert(s.alloc_type =~= seq![("lo"@, "Obj"@)]);
    assert(s.entry =~= seq!["Entry"@]);
}

/// Classes, their implementations and what they return.
pub open spec fn class_lookup(j: int) -> (Name, Name, Name) {
    ("C"@ + decimal(j as nat), "poly(Obj)"@, "C"@ + decimal(j as nat) + ".poly"@)
}

proof fn lemma_classes(s: Sheet, n: nat)
    ensures
        ({
            let t = with_classes(s, n);
            &&& t.lookup == s.lookup + Seq::new(n, |j: int| class_lookup(j))
            &&& t.procedure == s.procedure + Seq::new(n, |j: int| class_lookup(j).2)
            &&& t.virtual_call == s.virtual_call && t.direct_call == s.direct_call
            &&& t.mov == s.mov && t.load_field == s.load_field && t.bind_ret == s.bind_ret
            &&& t.actual_arg == s.actual_arg && t.entry == s.entry
            &&& t.alloc.len() == s.alloc.len() + if n == 0 {
                0
            } else {
                n - 1
            }
            &&& t.alloc_type.len() == s.alloc_type.len() + if n == 0 {
                0
            } else {
                n - 1
            }
            &&& t.ret.len() == s.ret.len() + n
            &&& t.formal.len() == s.formal.len() + 2 * n
        }),
    decreases n,
{
    if n == 0 {
        assert(with_classes(s, 0).lookup =~= s.lookup + Seq::new(0, |j: int| class_lookup(j)));
        assert(with_classes(s, 0).procedure =~= s.procedure + Seq::new(
            0,
            |j: int| class_lookup(j).2,
        ));
    } else {
        let m = (n - 1) as nat;
        lemma_classes(s, m);
        let was = with_classes(s, m);
        let now = with_class(was, m);
        assert(now.lookup =~= s.lookup + Seq::new(n, |j: int| class_lookup(j)));
        assert(now.procedure =~= s.procedure + Seq::new(n, |j: int| class_lookup(j).2));
    }
}

/// In the program with the dead receiver one call dispatches among two implementations,
/// and nothing whatever gives its receiver a value.
pub proof fn law_the_dead_receiver_has_no_value(prog: Program)
    requires
        call_ensures(families::dead_receiver, (), prog),
    ensures
        ({
            let s = sheet_of(prog);
            &&& s.virtual_call == seq![("S"@, "x@V"@, "poly(Obj)"@)]
            &&& s.lookup == Seq::new(2, |j: int| class_lookup(j))
            &&& s.direct_call == seq![("E1"@, "V"@)]
            &&& s.actual_arg == seq![
                ("S"@, 0usize, "x@V"@),
                ("S"@, 1usize, "obj@V"@),
                ("E1"@, 0usize, "this@Entry"@),
                ("E1"@, 1usize, "o"@),
            ]
            &&& s.bind_ret == seq![("S"@, "r@V"@), ("E1"@, "res"@)]
            &&& s.mov.len() == 0 && s.load_field.len() == 0
            &&& s.alloc.len() == 2 && s.alloc[1] == ("E0"@, "o"@, "lo"@)
            &&& s.alloc[0].1 == "t@"@ + class_lookup(1).2
            &&& s.formal.len() == 7
            &&& s.formal[4] == ("V"@, 0usize, "this@V"@)
            &&& s.formal[5] == ("V"@, 1usize, "obj@V"@)
            &&& s.entry == seq!["Entry"@]
        }),
{
    let s = sheet_of(prog);
    assert(s == dead_receiver_sheet());
    let classes = with_classes(Sheet::blank(), 2);
    lemma_classes(Sheet::blank(), 2);
    let t = classes.proc("V"@, seq!["this@V"@, "obj@V"@]).vcall(
        "S"@,
        "V"@,
        "x@V"@,
        "poly(Obj)"@,
        seq!["x@V"@, "obj@V"@],
        "r@V"@,
    ).ret("V"@, "r@V"@);
    lemma_call_of(t, "V"@);
    assert(s.virtual_call =~= seq![("S"@, "x@V"@, "poly(Obj)"@)]);
    assert(s.lookup =~= Seq::new(2, |j: int| class_lookup(j)));
    assert(s.direct_call =~= seq![("E1"@, "V"@)]);
    assert(s.actual_arg =~= seq![
        ("S"@, 0usize, "x@V"@),
        ("S"@, 1usize, "obj@V"@),
        ("E1"@, 0usize, "this@Entry"@),
        ("E1"@, 1usize, "o"@),
    ]);
    assert(s.bind_ret =~= seq![("S"@, "r@V"@), ("E1"@, "res"@)]);
    assert(s.entry =~= seq!["Entry"@]);
    let first = with_class(Sheet::blank(), 0);
    reveal_with_fuel(with_classes, 3);
    assert(classes == with_class(first, 1));
    assert(first.alloc =~= Seq::empty());
    assert(s.alloc[0] == classes.alloc[0]);
    assert(classes.alloc[0].1 == "t@"@ + class_lookup(1).2);
    assert(s.formal[4] == t.formal[4]);
    assert(s.formal[5] == t.formal[5]);
}

// ---------------------------------------------------------------------------
// Fan-in
// ---------------------------------------------------------------------------

/// The rows that feeder `i` adds: a procedure that allocates a receiver of its own class
/// and calls `P0` with it, and the call of it from the entry.
pub open spec fn feeds(now: Sheet, was: Sheet, i: nat, targets: nat) -> bool {
    let me = "B"@ + decimal(i);
    let (c, e) = ("C@"@ + me, "E@"@ + decimal(i));
    &&& now.procedure == was.procedure.push(me)
    &&& now.formal == was.formal.push((me, 0, "this@"@ + me)).push((me, 1, "obj@"@ + me))
    &&& now.alloc == was.alloc.push(("A@"@ + me, "t@"@ + me, "l@"@ + me))
    &&& now.alloc_type == was.alloc_type.push(("l@"@ + me, "C"@ + decimal(i % targets)))
    &&& now.direct_call == was.direct_call.push((c, "P0"@)).push((e, me))
    &&& now.actual_arg == was.actual_arg + seq![
        (c, 0usize, "this@"@ + me),
        (c, 1usize, "t@"@ + me),
        (c, 2usize, "obj@"@ + me),
        (e, 0usize, "this@Entry"@),
        (e, 1usize, "first"@),
    ]
    &&& now.bind_ret == was.bind_ret.push((c, "r@"@ + me)).push((e, "res"@ + decimal(i)))
    &&& now.ret == was.ret.push((me, "r@"@ + me))
    &&& now.virtual_call == was.virtual_call && now.lookup == was.lookup
    &&& now.mov == was.mov && now.load_field == was.load_field && now.entry == was.entry
}

proof fn lemma_feeder(s: Sheet, i: nat, targets: nat)
    ensures
        feeds(with_feeder(s, i, targets), s, i, targets),
{
    let me = "B"@ + decimal(i);
    let (c, e) = ("C@"@ + me, "E@"@ + decimal(i));
    let now = with_feeder(s, i, targets);
    assert(now.formal =~= s.formal.push((me, 0, "this@"@ + me)).push((me, 1, "obj@"@ + me)));
    assert(now.actual_arg =~= s.actual_arg + seq![
        (c, 0usize, "this@"@ + me),
        (c, 1usize, "t@"@ + me),
        (c, 2usize, "obj@"@ + me),
        (e, 0usize, "this@Entry"@),
        (e, 1usize, "first"@),
    ]);
}

/// What is said of feeder `i` where the feeders begin behind the rows of `s`.
pub open spec fn fed_by(t: Sheet, s: Sheet, i: int, targets: nat) -> bool {
    let me = "B"@ + decimal(i as nat);
    let (c, e) = ("C@"@ + me, "E@"@ + decimal(i as nat));
    let a = s.actual_arg.len() + 5 * i;
    &&& t.procedure[s.procedure.len() + i] == me
    &&& t.alloc[s.alloc.len() + i] == ("A@"@ + me, "t@"@ + me, "l@"@ + me)
    &&& t.alloc_type[s.alloc_type.len() + i] == (
        "l@"@ + me,
        "C"@ + decimal(i as nat % targets),
    )
    &&& t.direct_call[s.direct_call.len() + 2 * i] == (c, "P0"@)
    &&& t.direct_call[s.direct_call.len() + 2 * i + 1] == (e, me)
    &&& t.actual_arg[a] == (c, 0usize, "this@"@ + me)
    &&& t.actual_arg[a + 1] == (c, 1usize, "t@"@ + me)
    &&& t.actual_arg[a + 2] == (c, 2usize, "obj@"@ + me)
    &&& t.actual_arg[a + 3] == (e, 0usize, "this@Entry"@)
    &&& t.actual_arg[a + 4] == (e, 1usize, "first"@)
    &&& t.bind_ret[s.bind_ret.len() + 2 * i] == (c, "r@"@ + me)
    &&& t.ret[s.ret.len() + i] == (me, "r@"@ + me)
}

proof fn lemma_feeders(s: Sheet, n: nat, targets: nat)
    ensures
        ({
            let t = with_feeders(s, n, targets);
            &&& t.procedure.len() == s.procedure.len() + n
            &&& t.alloc.len() == s.alloc.len() + n
            &&& t.alloc_type.len() == s.alloc_type.len() + n
            &&& t.direct_call.len() == s.direct_call.len() + 2 * n
            &&& t.actual_arg.len() == s.actual_arg.len() + 5 * n
            &&& t.bind_ret.len() == s.bind_ret.len() + 2 * n
            &&& t.ret.len() == s.ret.len() + n
            &&& t.virtual_call == s.virtual_call && t.lookup == s.lookup
            &&& t.mov == s.mov && t.load_field == s.load_field && t.entry == s.entry
            &&& forall|i: int| 0 <= i < n ==> #[trigger] fed_by(t, s, i, targets)
        }),
    decreases n,
{
    if n > 0 {
        let m = (n - 1) as nat;
        lemma_feeders(s, m, targets);
        let was = with_feeders(s, m, targets);
        let now = with_feeders(s, n, targets);
        lemma_feeder(was, m, targets);
        assert forall|i: int| 0 <= i < n implies #[trigger] fed_by(now, s, i, targets) by {
            if i < m {
                assert(fed_by(was, s, i, targets));
            }
        }
    }
}

/// The fan-in program has one call that dispatches, in `P0`, and each of the `m` callers
/// of `P0` passes it a receiver that it allocates itself, of the classes in turn; the
/// entry calls them all.
pub proof fn law_every_caller_pins_a_receiver(m: usize, targets: usize, prog: Program, i: int)
    requires
        call_ensures(families::fanin, (m, targets), prog),
        0 <= i < m,
    ensures
        ({
            let s = sheet_of(prog);
            let me = "B"@ + decimal(i as nat);
            let (c, e) = ("C@"@ + me, "E@"@ + decimal(i as nat));
            let born: int = if targets == 0 {
                1
            } else {
                targets as int
            };
            &&& s.virtual_call == seq![("S0"@, "x@P0"@, "poly(Obj)"@)]
            &&& s.lookup == Seq::new(targets as nat, |j: int| class_lookup(j))
            &&& s.procedure.len() == targets + 2 + m
            &&& s.procedure[targets + 2 + i] == me
            &&& s.alloc.len() == born + m
            &&& s.alloc[born + i] == ("A@"@ + me, "t@"@ + me, "l@"@ + me)
            &&& s.alloc_type.len() == born + m
            &&& s.alloc_type[born + i] == (
                "l@"@ + me,
                "C"@ + decimal(i as nat % targets as nat),
            )
            &&& s.direct_call.len() == 2 * m
            &&& s.direct_call[2 * i] == (c, "P0"@)
            &&& s.direct_call[2 * i + 1] == (e, me)
            &&& s.actual_arg.len() == 2 + 5 * m
            &&& s.actual_arg[0] == ("S0"@, 0usize, "x@P0"@)
            &&& s.actual_arg[1] == ("S0"@, 1usize, "obj@P0"@)
            &&& s.actual_arg[2 + 5 * i] == (c, 0usize, "this@"@ + me)
            &&& s.actual_arg[3 + 5 * i] == (c, 1usize, "t@"@ + me)
            &&& s.actual_arg[4 + 5 * i] == (c, 2usize, "obj@"@ + me)
            &&& s.actual_arg[5 + 5 * i] == (e, 0usize, "this@Entry"@)
            &&& s.actual_arg[6 + 5 * i] == (e, 1usize, "first"@)
            &&& s.bind_ret.len() == 1 + 2 * m
            &&& s.bind_ret[1 + 2 * i] == (c, "r@"@ + me)
            &&& s.ret.len() == targets + 1 + m
            &&& s.ret[targets + 1 + i] == (me, "r@"@ + me)
            &&& s.entry == seq!["Entry"@]
            &&& s.mov.len() == 0 && s.load_field.len() == 0
        }),
{
    let s = sheet_of(prog);
    let k = targets as nat;
    assert(s == fanin_sheet(m as nat, k));
    lemma_classes(Sheet::blank(), k);
    let start = with_leaf(with_classes(Sheet::blank(), k)).proc(
        "Entry"@,
        seq!["this@Entry"@],
    ).new_object("E0"@, "Entry"@, "first"@, "lfirst"@, "Obj"@);
    lemma_feeders(start, m as nat, k);
    let t = with_feeders(start, m as nat, k);
    assert(fed_by(t, start, i, k));
    assert(start.virtual_call =~= seq![("S0"@, "x@P0"@, "poly(Obj)"@)]);
    assert(start.lookup =~= Seq::new(k, |j: int| class_lookup(j)));
    assert(start.actual_arg =~= seq![
        ("S0"@, 0usize, "x@P0"@),
        ("S0"@, 1usize, "obj@P0"@),
    ]);
    lemma_first_arguments(start, m as nat, k);
    assert(s.entry =~= seq!["Entry"@]);
}

proof fn lemma_first_arguments(s: Sheet, n: nat, targets: nat)
    requires
        s.actual_arg.len() == 2,
    ensures
        with_feeders(s, n, targets).actual_arg.len() >= 2,
        with_feeders(s, n, targets).actual_arg[0] == s.actual_arg[0],
        with_feeders(s, n, targets).actual_arg[1] == s.actual_arg[1],
    decreases n,
{
    if n > 0 {
        lemma_first_arguments(s, (n - 1) as nat, targets);
        lemma_feeder(with_feeders(s, (n - 1) as nat, targets), (n - 1) as nat, targets);
    }
}

// ---------------------------------------------------------------------------
// The wide program
// ---------------------------------------------------------------------------

/// A name of leaf or group `i` in procedure `owner`.
pub open spec fn tagged(prefix: Name, i: int, owner: Name) -> Name {
    prefix + decimal(i as nat) + ("@"@ + owner)
}

/// The group that leaf `x` is in: four to a group.
pub open spec fn group_of(x: int) -> Name {
    "D"@ + decimal((x / 4) as nat)
}

proof fn lemma_leaf_objects(s: Sheet, me: Name, w: nat)
    ensures
        ({
            let t = with_leaf_objects(s, me, w);
            &&& t == (Sheet {
                alloc: t.alloc,
                alloc_type: t.alloc_type,
                in_proc: t.in_proc,
                ..s
            })
            &&& t.alloc == s.alloc + Seq::new(
                w,
                |j: int| (tagged("A"@, j, me), tagged("a"@, j, me), tagged("l"@, j, me)),
            )
            &&& t.alloc_type.len() == s.alloc_type.len() + w
        }),
    decreases w,
{
    let more = Seq::new(
        w,
        |j: int| (tagged("A"@, j, me), tagged("a"@, j, me), tagged("l"@, j, me)),
    );
    if w == 0 {
        assert(s.alloc + more =~= s.alloc);
    } else {
        lemma_leaf_objects(s, me, (w - 1) as nat);
        assert(with_leaf_objects(s, me, w).alloc =~= s.alloc + more);
    }
}

/// Variable `k` of a leaf merges the one before it and object `k`.
pub open spec fn merged_at(mov: Seq<(Name, Name, Name)>, me: Name, k: int) -> bool {
    let to = tagged("c"@, k, me);
    &&& mov.contains((tagged("Mc"@, k, me), to, tagged("c"@, k - 1, me)))
    &&& mov.contains((tagged("Ma"@, k, me), to, tagged("a"@, k, me)))
}

proof fn lemma_leaf_merges(s: Sheet, me: Name, n: nat)
    ensures
        ({
            let t = with_leaf_merges(s, me, n);
            &&& t == (Sheet { mov: t.mov, in_proc: t.in_proc, ..s })
            &&& t.mov.len() == s.mov.len() + 2 * n
            &&& forall|k: int| 0 <= k < s.mov.len() ==> #[trigger] t.mov[k] == s.mov[k]
            &&& forall|k: int|
                1 <= k <= n ==> #[trigger] merged_at(t.mov, me, k)
        }),
    decreases n,
{
    if n > 0 {
        let m = (n - 1) as nat;
        lemma_leaf_merges(s, me, m);
        let was = with_leaf_merges(s, me, m);
        let now = with_leaf_merges(s, me, n);
        assert forall|k: int| 1 <= k <= n implies #[trigger] merged_at(
            now.mov,
            me,
            k,
        ) by {
            let x = (tagged("Mc"@, k, me), tagged("c"@, k, me), tagged("c"@, k - 1, me));
            let y = (tagged("Ma"@, k, me), tagged("c"@, k, me), tagged("a"@, k, me));
            if k < n {
                assert(merged_at(was.mov, me, k));
                let i = choose|i: int| 0 <= i < was.mov.len() && was.mov[i] == x;
                let j = choose|j: int| 0 <= j < was.mov.len() && was.mov[j] == y;
                assert(now.mov[i] == x);
                assert(now.mov[j] == y);
            } else {
                assert(now.mov[was.mov.len() as int] == x);
                assert(now.mov[was.mov.len() as int + 1] == y);
            }
        }
    }
}

proof fn lemma_mid_calls(s: Sheet, me: Name, lo: nat, hi: nat)
    requires
        lo <= hi,
    ensures
        ({
            let t = with_mid_calls(s, me, lo, hi);
            let n = (hi - lo) as nat;
            &&& t.procedure == s.procedure && t.ret == s.ret && t.alloc == s.alloc
            &&& t.virtual_call == s.virtual_call && t.load_field == s.load_field
            &&& t.entry == s.entry
            &&& t.direct_call == s.direct_call + Seq::new(
                n,
                |x: int| (tagged("C"@, lo + x, me), "W"@ + decimal((lo + x) as nat)),
            )
            &&& t.bind_ret == s.bind_ret + Seq::new(
                n,
                |x: int| (tagged("C"@, lo + x, me), tagged("r"@, lo + x, me)),
            )
            &&& t.mov == s.mov + Seq::new(
                n,
                |x: int| (tagged("Mr"@, lo + x, me), "acc@"@ + me, tagged("r"@, lo + x, me)),
            )
        }),
    decreases hi,
{
    let n = (hi - lo) as nat;
    let calls = Seq::new(
        n,
        |x: int| (tagged("C"@, lo + x, me), "W"@ + decimal((lo + x) as nat)),
    );
    let binds = Seq::new(n, |x: int| (tagged("C"@, lo + x, me), tagged("r"@, lo + x, me)));
    let movs = Seq::new(
        n,
        |x: int| (tagged("Mr"@, lo + x, me), "acc@"@ + me, tagged("r"@, lo + x, me)),
    );
    let t = with_mid_calls(s, me, lo, hi);
    if hi > lo {
        lemma_mid_calls(s, me, lo, (hi - 1) as nat);
    }
    assert(t.direct_call =~= s.direct_call + calls);
    assert(t.bind_ret =~= s.bind_ret + binds);
    assert(t.mov =~= s.mov + movs);
}

/// How many of `m` leaves are in the first `n` groups.
pub open spec fn grouped(n: nat, m: nat) -> nat {
    if 4 * n <= m {
        4 * n
    } else {
        m
    }
}

proof fn lemma_mids(s: Sheet, n: nat, m: nat)
    requires
        n <= mid_count(m),
    ensures
        ({
            let t = with_mids(s, n, m);
            let k = grouped(n, m);
            &&& t.procedure == s.procedure + Seq::new(n, |j: int| "D"@ + decimal(j as nat))
            &&& t.ret == s.ret + Seq::new(
                n,
                |j: int| ("D"@ + decimal(j as nat), "acc@"@ + ("D"@ + decimal(j as nat))),
            )
            &&& t.alloc == s.alloc && t.entry == s.entry
            &&& t.virtual_call == s.virtual_call && t.load_field == s.load_field
            &&& t.direct_call == s.direct_call + Seq::new(
                k,
                |x: int| (tagged("C"@, x, group_of(x)), "W"@ + decimal(x as nat)),
            )
            &&& t.bind_ret == s.bind_ret + Seq::new(
                k,
                |x: int| (tagged("C"@, x, group_of(x)), tagged("r"@, x, group_of(x))),
            )
            &&& t.mov == s.mov + Seq::new(
                k,
                |x: int|
                    (
                        tagged("Mr"@, x, group_of(x)),
                        "acc@"@ + group_of(x),
                        tagged("r"@, x, group_of(x)),
                    ),
            )
        }),
    decreases n,
{
    let k = grouped(n, m);
    let t = with_mids(s, n, m);
    let calls = Seq::new(
        k,
        |x: int| (tagged("C"@, x, group_of(x)), "W"@ + decimal(x as nat)),
    );
    let binds = Seq::new(
        k,
        |x: int| (tagged("C"@, x, group_of(x)), tagged("r"@, x, group_of(x))),
    );
    let movs = Seq::new(
        k,
        |x: int|
            (
                tagged("Mr"@, x, group_of(x)),
                "acc@"@ + group_of(x),
                tagged("r"@, x, group_of(x)),
            ),
    );
    if n > 0 {
        let j = (n - 1) as nat;
        lemma_mids(s, j, m);
        let was = with_mids(s, j, m);
        let me = "D"@ + decimal(j);
        let lo = 4 * j;
        assert(lo < m);
        assert(grouped(j, m) == lo);
        let hi = if lo + 4 <= m {
            lo + 4
        } else {
            m
        };
        assert(hi == k);
        let start = was.proc(me, seq!["this@"@ + me, "x@"@ + me]);
        lemma_mid_calls(start, me, lo, hi);
        assert(t == with_mid_calls(start, me, lo, hi).ret(me, "acc@"@ + me));
        assert forall|x: int| lo <= x < hi implies #[trigger] group_of(x) == me by {
            assert(x / 4 == j);
        }
    }
    assert(t.procedure =~= s.procedure + Seq::new(n, |j: int| "D"@ + decimal(j as nat)));
    assert(t.ret =~= s.ret + Seq::new(
        n,
        |j: int| ("D"@ + decimal(j as nat), "acc@"@ + ("D"@ + decimal(j as nat))),
    ));
    assert(t.direct_call =~= s.direct_call + calls);
    assert(t.bind_ret =~= s.bind_ret + binds);
    assert(t.mov =~= s.mov + movs);
}

proof fn lemma_tops(s: Sheet, n: nat)
    ensures
        ({
            let t = with_top_calls(s, n);
            &&& t.procedure == s.procedure && t.ret == s.ret && t.alloc == s.alloc
            &&& t.virtual_call == s.virtual_call && t.load_field == s.load_field
            &&& t.entry == s.entry
            &&& t.direct_call == s.direct_call + Seq::new(
                n,
                |j: int| ("E@"@ + decimal(j as nat), "D"@ + decimal(j as nat)),
            )
            &&& t.mov == s.mov + Seq::new(
                n,
                |j: int| ("Em@"@ + decimal(j as nat), "res"@, "r"@ + decimal(j as nat)),
            )
        }),
    decreases n,
{
    let t = with_top_calls(s, n);
    if n > 0 {
        lemma_tops(s, (n - 1) as nat);
    }
    assert(t.direct_call =~= s.direct_call + Seq::new(
        n,
        |j: int| ("E@"@ + decimal(j as nat), "D"@ + decimal(j as nat)),
    ));
    assert(t.mov =~= s.mov + Seq::new(
        n,
        |j: int| ("Em@"@ + decimal(j as nat), "res"@, "r"@ + decimal(j as nat)),
    ));
}

/// What is said of leaf `i` of a wide program: it allocates `w` objects, starts with its
/// parameter, merges the objects but the first into one variable after the other, and
/// returns the last.
pub open spec fn leaf_merges(s: Sheet, i: int, w: nat) -> bool {
    let me = "W"@ + decimal(i as nat);
    let last = if w == 0 {
        0
    } else {
        w - 1
    };
    &&& s.procedure.contains(me)
    &&& s.ret.contains((me, tagged("c"@, last, me)))
    &&& s.mov.contains(("M0@"@ + me, "c0@"@ + me, "x@"@ + me))
    &&& forall|j: int|
        0 <= j < w ==> #[trigger] s.alloc.contains(
            (tagged("A"@, j, me), tagged("a"@, j, me), tagged("l"@, j, me)),
        )
    &&& forall|k: int|
        1 <= k <= last ==> #[trigger] merged_at(s.mov, me, k)
}

/// The rows of `a` are the first of `b`.
spec fn begins<T>(a: Seq<T>, b: Seq<T>) -> bool {
    a.len() <= b.len() && forall|k: int| 0 <= k < a.len() ==> #[trigger] b[k] == a[k]
}

proof fn lemma_begins<T>(a: Seq<T>, b: Seq<T>, x: T)
    requires
        begins(a, b),
        a.contains(x),
    ensures
        b.contains(x),
{
    let k = choose|k: int| 0 <= k < a.len() && a[k] == x;
    assert(b[k] == x);
}

proof fn lemma_leaf_stays(a: Sheet, b: Sheet, i: int, w: nat)
    requires
        leaf_merges(a, i, w),
        begins(a.procedure, b.procedure),
        begins(a.ret, b.ret),
        begins(a.mov, b.mov),
        begins(a.alloc, b.alloc),
    ensures
        leaf_merges(b, i, w),
{
    let me = "W"@ + decimal(i as nat);
    let last = if w == 0 {
        0
    } else {
        w - 1
    };
    lemma_begins(a.procedure, b.procedure, me);
    lemma_begins(a.ret, b.ret, (me, tagged("c"@, last, me)));
    lemma_begins(a.mov, b.mov, ("M0@"@ + me, "c0@"@ + me, "x@"@ + me));
    assert forall|j: int| 0 <= j < w implies #[trigger] b.alloc.contains(
        (tagged("A"@, j, me), tagged("a"@, j, me), tagged("l"@, j, me)),
    ) by {
        lemma_begins(
            a.alloc,
            b.alloc,
            (tagged("A"@, j, me), tagged("a"@, j, me), tagged("l"@, j, me)),
        );
    }
    assert forall|k: int| 1 <= k <= last implies #[trigger] merged_at(b.mov, me, k) by {
        let x = (tagged("Mc"@, k, me), tagged("c"@, k, me), tagged("c"@, k - 1, me));
        let y = (tagged("Ma"@, k, me), tagged("c"@, k, me), tagged("a"@, k, me));
        assert(merged_at(a.mov, me, k));
        lemma_begins(a.mov, b.mov, x);
        lemma_begins(a.mov, b.mov, y);
    }
}

proof fn lemma_wide_leaf(s: Sheet, i: nat, w: nat)
    ensures
        ({
            let t = with_wide_leaf(s, i, w);
            &&& leaf_merges(t, i as int, w)
            &&& begins(s.procedure, t.procedure)
            &&& begins(s.ret, t.ret)
            &&& begins(s.mov, t.mov)
            &&& begins(s.alloc, t.alloc)
            &&& t.procedure.len() == s.procedure.len() + 1
            &&& t.ret.len() == s.ret.len() + 1
            &&& t.alloc.len() == s.alloc.len() + w
            &&& t.mov.len() == s.mov.len() + if w == 0 {
                1
            } else {
                2 * w - 1
            }
            &&& t.direct_call == s.direct_call && t.bind_ret == s.bind_ret
            &&& t.virtual_call == s.virtual_call && t.load_field == s.load_field
            &&& t.entry == s.entry
        }),
{
    let me = "W"@ + decimal(i);
    let t = with_wide_leaf(s, i, w);
    let a = s.proc(me, seq!["this@"@ + me, "x@"@ + me]);
    lemma_leaf_objects(a, me, w);
    let b = with_leaf_objects(a, me, w);
    let c = b.mov("M0@"@ + me, me, "c0@"@ + me, "x@"@ + me);
    let last: nat = if w == 0 {
        0
    } else {
        (w - 1) as nat
    };
    lemma_leaf_merges(c, me, last);
    let d = with_leaf_merges(c, me, last);
    assert(t.procedure[s.procedure.len() as int] == me);
    assert(t.ret[s.ret.len() as int] == (me, tagged("c"@, last as int, me)));
    assert(c.mov[s.mov.len() as int] == ("M0@"@ + me, "c0@"@ + me, "x@"@ + me));
    assert(t.mov[s.mov.len() as int] == c.mov[s.mov.len() as int]);
    assert forall|k: int| 0 <= k < s.mov.len() implies #[trigger] t.mov[k] == s.mov[k] by {
        assert(d.mov[k] == c.mov[k]);
    }
    assert forall|j: int| 0 <= j < w implies #[trigger] t.alloc.contains(
        (tagged("A"@, j, me), tagged("a"@, j, me), tagged("l"@, j, me)),
    ) by {
        assert(t.alloc[s.alloc.len() + j] == (
            tagged("A"@, j, me),
            tagged("a"@, j, me),
            tagged("l"@, j, me),
        ));
    }
}

proof fn lemma_wide_leaves(s: Sheet, m: nat, w: nat)
    ensures
        ({
            let t = with_wide_leaves(s, m, w);
            &&& forall|i: int| 0 <= i < m ==> #[trigger] leaf_merges(t, i, w)
            &&& t.procedure.len() == s.procedure.len() + m
            &&& t.ret.len() == s.ret.len() + m
            &&& t.alloc.len() == s.alloc.len() + m * w
            &&& t.mov.len() == s.mov.len() + m * (if w == 0 {
                1
            } else {
                2 * w - 1
            })
            &&& t.direct_call == s.direct_call && t.bind_ret == s.bind_ret
            &&& t.virtual_call == s.virtual_call && t.load_field == s.load_field
            &&& t.entry == s.entry
        }),
    decreases m,
{
    let size: int = if w == 0 {
        1
    } else {
        2 * w - 1
    };
    if m == 0 {
        assert(0 * w == 0) by (nonlinear_arith);
        assert(0 * size == 0) by (nonlinear_arith);
    } else {
        let n = (m - 1) as nat;
        lemma_wide_leaves(s, n, w);
        let was = with_wide_leaves(s, n, w);
        let now = with_wide_leaves(s, m, w);
        lemma_wide_leaf(was, n, w);
        assert(n * w + w == m * w) by (nonlinear_arith)
            requires
                m == n + 1,
        ;
        assert(n * size + size == m * size) by (nonlinear_arith)
            requires
                m == n + 1,
        ;
        assert forall|i: int| 0 <= i < m implies #[trigger] leaf_merges(now, i, w) by {
            if i < n {
                assert(leaf_merges(was, i, w));
                lemma_leaf_stays(was, now, i, w);
            }
        }
    }
}

/// In the wide program each of the `m` leaves merges its `w` objects and is called once,
/// by its group of four; each group merges and returns what its leaves return, and the
/// entry calls every group once.
pub proof fn law_leaves_are_called_in_groups_of_four(
    m: usize,
    w: usize,
    prog: Program,
    i: int,
    j: int,
)
    requires
        call_ensures(families::wide, (m, w), prog),
        0 <= i < m,
        0 <= j,
        4 * j < m,
    ensures
        ({
            let s = sheet_of(prog);
            let d = "D"@ + decimal(j as nat);
            let n = (m + 3) / 4;
            &&& leaf_merges(s, i, w as nat)
            &&& s.procedure.len() == m + n + 1
            &&& s.procedure[m + j] == d
            &&& s.direct_call.len() == m + n
            &&& s.direct_call[i] == (tagged("C"@, i, group_of(i)), "W"@ + decimal(i as nat))
            &&& s.direct_call[m + j] == ("E@"@ + decimal(j as nat), d)
            &&& s.bind_ret[i] == (tagged("C"@, i, group_of(i)), tagged("r"@, i, group_of(i)))
            &&& s.mov.contains(
                (
                    tagged("Mr"@, i, group_of(i)),
                    "acc@"@ + group_of(i),
                    tagged("r"@, i, group_of(i)),
                ),
            )
            &&& s.mov.contains(("Em@"@ + decimal(j as nat), "res"@, "r"@ + decimal(j as nat)))
            &&& s.mov.len() == m * (if w == 0 {
                1
            } else {
                2 * w - 1
            }) + m + n
            &&& s.ret.len() == m + n
            &&& s.ret[m + j] == (d, "acc@"@ + d)
            &&& s.alloc.len() == m * w + 1
            &&& s.entry == seq!["Entry"@]
            &&& s.virtual_call.len() == 0 && s.load_field.len() == 0
        }),
{
    let s = sheet_of(prog);
    let (mm, ww) = (m as nat, w as nat);
    assert(s == wide_sheet(mm, ww));
    let n = mid_count(mm);
    assert(n == (m + 3) / 4);
    let leaves = with_wide_leaves(Sheet::blank(), mm, ww);
    lemma_wide_leaves(Sheet::blank(), mm, ww);
    let mids = with_mids(leaves, n, mm);
    lemma_mids(leaves, n, mm);
    assert(grouped(n, mm) == mm);
    let start = mids.proc("Entry"@, seq!["this@Entry"@]).new_object(
        "E0"@,
        "Entry"@,
        "o"@,
        "lo"@,
        "Obj"@,
    );
    lemma_tops(start, n);
    let tops = with_top_calls(start, n);
    assert(leaf_merges(leaves, i, ww));
    lemma_leaf_stays(leaves, s, i, ww);
    assert(s.entry =~= seq!["Entry"@]);
    assert(s.mov[leaves.mov.len() + i] == (
        tagged("Mr"@, i, group_of(i)),
        "acc@"@ + group_of(i),
        tagged("r"@, i, group_of(i)),
    ));
    assert(s.mov[leaves.mov.len() + m + j] == (
        "Em@"@ + decimal(j as nat),
        "res"@,
        "r"@ + decimal(j as nat),
    ));
    lemma_binds(start, n, i);
}

proof fn lemma_binds(s: Sheet, n: nat, i: int)
    requires
        0 <= i < s.bind_ret.len(),
    ensures
        with_top_calls(s, n).bind_ret.len() > i,
        with_top_calls(s, n).bind_ret[i] == s.bind_ret[i],
    decreases n,
{
    if n > 0 {
        lemma_binds(s, (n - 1) as nat, i);
    }
}

// ---------------------------------------------------------------------------
// Branches, chains and merges
// ---------------------------------------------------------------------------

/// The generated programs are the ones that the laws of their families speak of: a
/// branching one forks at every level, a chain resolves once at the top, and merges
/// collect what went in.
pub proof fn law_families_are_generated(
    n: usize,
    targets: usize,
    forks: Program,
    i: nat,
    calls: Program,
    h: &HybridAnalysis,
    merges: Program,
    g: &HybridAnalysis,
    v: Value,
)
    requires
        call_ensures(families::branching, (n, targets), forks),
        call_ensures(families::chain, (n, targets), calls),
        call_ensures(families::alias, (n,), merges),
        analysed(h, calls),
        analysed(g, merges),
    ensures
        1 <= i <= n ==> forked(sheet_of(forks), i),
        targets >= 2 && h.k_limit > n ==> tuples(h.resolve@) == set![
            ("Entry"@, arrived(n as nat), imp(0)),
        ],
        i < n ==> (tuples(g.points@).contains(("M"@, Path::var(merge(i)), v)) <==> exists|j: nat|
            j <= i && v == Value::Alloc(#[trigger] place_of(j))),
{
    if 1 <= i <= n {
        law_every_level_forks(n as nat, targets as nat, i);
    }
    if targets >= 2 && h.k_limit > n {
        law_chain_resolves_once_at_the_top(h, calls, n as nat, targets as nat);
    }
    if i < n {
        law_merges_collect_what_went_in(g, merges, n as nat, i);
    }
}

} // verus!
