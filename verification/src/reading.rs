//! What the analysis finds on a chain of procedures that each read one field.
//!
//! In the program of [`crate::families::fields_chain`] each procedure reads a field of
//! what the one below it returns. No procedure reads twice, so no statement of the
//! program spells two accessors in a row, and the default bound stops at one.
use vstd::prelude::*;

use crate::access_path::{Path, Step, Value};
use crate::analysis::HybridAnalysis;
use crate::families::{fields_chain_sheet, with_readers};
use crate::ir::{Line, Name, Program};
use crate::laws::{analysed, law_suffixes_are_admitted};
use crate::path_bound::{
    chosen, clear, folded, hangs, link, place, reaches, spelled, stmt_link, under,
};
use crate::sheet::{lemma_reads, reads, written, Sheet};
use crate::text::decimal;
use crate::tuples::tuples;

verus! {

/// No variable that a load fills is one that a load reads.
spec fn apart(s: Sheet) -> bool {
    forall|x: (Name, Name, Name, Name)| #[trigger]
        s.load_field.contains(x) ==> x.1.len() > 0 && x.1[0] == 'y' && x.2.len() > 0 && x.2[0]
            != 'y'
}

/// The first procedure reads the first field.
spec fn reads_first(s: Sheet) -> bool {
    &&& s.load_field.contains(first_read())
    &&& exists|l: usize| s.in_proc.contains(("S0"@, "P0"@, l))
}

spec fn first_read() -> (Name, Name, Name, Name) {
    ("S0"@, "y@P0"@, "x@P0"@, "f0"@)
}

proof fn lemma_kept<T>(s: Seq<T>, x: T, y: T)
    requires
        s.contains(x),
    ensures
        s.push(y).contains(x),
{
    let i = choose|i: int| 0 <= i < s.len() && s[i] == x;
    assert(s.push(y)[i] == x);
}

proof fn lemma_readers(s: Sheet, n: nat)
    requires
        apart(s),
        reads_first(s),
        s.mov.len() == 0,
    ensures
        apart(with_readers(s, n)),
        reads_first(with_readers(s, n)),
        with_readers(s, n).mov.len() == 0,
    decreases n,
{
    if n > 0 {
        let was = with_readers(s, (n - 1) as nat);
        lemma_readers(s, (n - 1) as nat);
        reveal_strlit("y@");
        reveal_strlit("t@");
        let me = "P"@ + decimal(n);
        let row = ("S"@ + decimal(n), "y@"@ + me, "t@"@ + me, "f"@ + decimal(n));
        assert(row.1[0] == 'y');
        assert(row.2[0] == 't');
        assert(with_readers(s, n).load_field == was.load_field.push(row));
        lemma_kept(was.load_field, first_read(), row);
        let l = choose|l: usize| was.in_proc.contains(("S0"@, "P0"@, l));
        let call = ("C"@ + decimal(n), me, crate::sheet::lines_of(was.in_proc, me) as usize);
        let mid = was.in_proc.push(call);
        let load = ("S"@ + decimal(n), me, crate::sheet::lines_of(mid, me) as usize);
        lemma_kept(was.in_proc, ("S0"@, "P0"@, l), call);
        lemma_kept(mid, ("S0"@, "P0"@, l), load);
        assert(with_readers(s, n).in_proc == mid.push(load));
        assert forall|x: (Name, Name, Name, Name)| #[trigger]
            with_readers(s, n).load_field.contains(x) implies x.1.len() > 0 && x.1[0] == 'y'
            && x.2.len() > 0 && x.2[0] != 'y' by {
            let i = choose|i: int|
                0 <= i < was.load_field.push(row).len() && was.load_field.push(row)[i] == x;
            if i < was.load_field.len() {
                assert(was.load_field[i] == x);
                assert(was.load_field.contains(x));
            }
        }
    }
}

proof fn lemma_apart(n: nat)
    ensures
        apart(fields_chain_sheet(n)),
        reads_first(fields_chain_sheet(n)),
        fields_chain_sheet(n).mov.len() == 0,
{
    reveal_strlit("y@P0");
    reveal_strlit("x@P0");
    let head = Sheet::blank().proc("P0"@, seq!["this@P0"@, "x@P0"@]).load_field(
        "S0"@,
        "P0"@,
        "y@P0"@,
        "x@P0"@,
        "f0"@,
    ).ret("P0"@, "y@P0"@);
    let row = ("S0"@, "y@P0"@, "x@P0"@, "f0"@);
    assert(head.load_field =~= seq![row]);
    assert(row.1[0] == 'y' && row.2[0] == 'x');
    assert(head.load_field[0] == row);
    assert(head.in_proc =~= seq![("S0"@, "P0"@, 0usize)]);
    assert(head.in_proc[0] == ("S0"@, "P0"@, 0usize));
    assert(head.in_proc.contains(("S0"@, "P0"@, 0usize)));
    assert(head.load_field.contains(first_read()));
    lemma_readers(head, n);
    let was = with_readers(head, n);
    let l = choose|l: usize| was.in_proc.contains(("S0"@, "P0"@, l));
    let a = ("E0"@, "Entry"@, crate::sheet::lines_of(was.in_proc, "Entry"@) as usize);
    let mid = was.in_proc.push(a);
    let b = ("E1"@, "Entry"@, crate::sheet::lines_of(mid, "Entry"@) as usize);
    lemma_kept(was.in_proc, ("S0"@, "P0"@, l), a);
    lemma_kept(mid, ("S0"@, "P0"@, l), b);
    assert(fields_chain_sheet(n).in_proc == mid.push(b));
}

/// A link reads a field of its target into its source.
proof fn lemma_link(
    prog: Program,
    n: nat,
    p: Name,
    l: Line,
    src: Name,
    dst: Name,
    acc: Option<Step>,
)
    requires
        reads(prog@, fields_chain_sheet(n)),
        link(prog, p, l, src, dst, acc),
    ensures
        acc is Some,
        src.len() > 0 && src[0] == 'y',
        dst.len() > 0 && dst[0] != 'y',
{
    let (e, s) = (prog@, fields_chain_sheet(n));
    lemma_apart(n);
    let x = choose|x: Name| #[trigger]
        place(prog.in_proc@, x) == Some((p, l)) && stmt_link(e, x, src, dst, acc);
    match acc {
        None => {
            assert(s.mov.contains((x, src, dst)));
        },
        Some(a) => {
            let f = a->Field_0;
            assert(e.load_field.contains((x, src, dst, f)));
            assert(s.load_field.contains((x, src, dst, f)));
        },
    }
}

proof fn lemma_one_step(prog: Program, n: nat, p: Name, v: Name, rho: Seq<Step>, l: Line)
    requires
        reads(prog@, fields_chain_sheet(n)),
        hangs(prog, None, p, v, rho, l),
    ensures
        rho.len() == 1,
{
    let (src, acc) = choose|src: Name, acc: Option<Step>| #[trigger]
        link(prog, p, l, src, v, acc) && match acc {
            None => reaches(prog, None, p, src, rho, l),
            Some(a) => {
                &&& rho[0] == a
                &&& under(None, rho.len())
                &&& rho.len() == 1 || reaches(prog, None, p, src, rho.drop_first(), l)
            },
        };
    lemma_link(prog, n, p, l, src, v, acc);
    if rho.len() != 1 {
        let rest = rho.drop_first();
        let m = choose|m: Line|
            l < m && hangs(prog, None, p, src, rest, m) && #[trigger] clear(prog, p, src, l, m);
        let (x, a) = choose|x: Name, a: Option<Step>| #[trigger]
            link(prog, p, m, x, src, a) && match a {
                None => reaches(prog, None, p, x, rest, m),
                Some(b) => {
                    &&& rest[0] == b
                    &&& under(None, rest.len())
                    &&& rest.len() == 1 || reaches(prog, None, p, x, rest.drop_first(), m)
                },
            };
        lemma_link(prog, n, p, m, x, src, a);
    }
}

/// The default bound of the chain admits no suffix of two accessors, however long the
/// chain is.
pub proof fn law_chain_spells_one_accessor(prog: Program, n: nat, rho: Seq<Step>)
    requires
        written(prog, fields_chain_sheet(n)),
        chosen(prog).contains(rho),
    ensures
        rho.len() <= 1,
{
    lemma_reads(prog, fields_chain_sheet(n));
    assert(folded(spelled(prog, None), None, 1) == spelled(prog, None));
    if rho.len() > 0 {
        let (p, v, l) = choose|p: Name, v: Name, l: Line| hangs(prog, None, p, v, rho, l);
        lemma_one_step(prog, n, p, v, rho, l);
    }
}

/// Under the default bound the paths of the chain stop at one accessor: the first read
/// names one, and no constraint and no points-to set names a longer one.
pub proof fn law_chain_stops_at_one_accessor(h: &HybridAnalysis, prog: Program, n: nat)
    requires
        written(prog, fields_chain_sheet(n)),
        analysed(h, prog),
    ensures
        forall|p: Name, a: Path, b: Path| #[trigger]
            tuples(h.edge@).contains((p, a, b)) ==> a.steps.len() <= 1 && b.steps.len() <= 1,
        forall|p: Name, a: Path, v: Value| #[trigger]
            tuples(h.points@).contains((p, a, v)) ==> a.steps.len() <= 1,
        forall|p: Name, a: Path, b: Path| #[trigger]
            tuples(h.points@).contains((p, a, Value::Path(b))) ==> b.steps.len() <= 1,
        tuples(h.edge@).contains(
            ("P0"@, Path::var("y@P0"@), Path::var("x@P0"@).then_step(Step::Field("f0"@))),
        ),
{
    let (w, m) = (h.setting(), h.said());
    let s = fields_chain_sheet(n);
    lemma_reads(prog, s);
    lemma_apart(n);
    let l = choose|l: usize| s.in_proc.contains(("S0"@, "P0"@, l));
    assert(w.e.in_proc.contains(("S0"@, "P0"@, l)));
    assert(w.e.stands_in("S0"@, "P0"@));
    let (sup, sub) = (Path::var("y@P0"@), Path::var("x@P0"@).then_step(Step::Field("f0"@)));
    assert(w.e.load_field.contains(first_read()));
    assert(w.e.load_field.contains(("S0"@, "y@P0"@, "x@P0"@, "f0"@)));
    assert(w.e.says("S0"@, sup, sub));
    assert(w.edge_by_statement("P0"@, sup, sub));
    assert(w.edge_from(m, "P0"@, sup, sub));
    law_suffixes_are_admitted(w, m);
    assert forall|rho: Seq<Step>| #[trigger] w.e.paths.contains(rho) implies rho.len() <= 1 by {
        law_chain_spells_one_accessor(prog, n, rho);
    }
    assert forall|p: Name, a: Path, b: Path| #[trigger]
        tuples(h.edge@).contains((p, a, b)) implies a.steps.len() <= 1 && b.steps.len() <= 1 by {
        assert(m.edge.contains((p, a, b)));
    }
    assert forall|p: Name, a: Path, v: Value| #[trigger]
        tuples(h.points@).contains((p, a, v)) implies a.steps.len() <= 1 by {
        assert(m.points.contains((p, a, v)));
    }
    assert forall|p: Name, a: Path, b: Path| #[trigger]
        tuples(h.points@).contains((p, a, Value::Path(b))) implies b.steps.len() <= 1 by {
        assert(m.points.contains((p, a, Value::Path(b))));
    }
}

} // verus!
