//! What the analysis finds on a chain of merges.
//!
//! The program of [`crate::families::alias`] makes `n` objects and merges them into `n`
//! variables, one more object with each. The points-to set of a merge is exactly what
//! went into it.
use vstd::prelude::*;

use crate::access_path::{Instance, Path, Value};
use crate::analysis::HybridAnalysis;
use crate::families::{alias_sheet, less_one, with_merges, with_objects};
use crate::ir::{Name, Program};
use crate::laws::{analysed, law_rule_induction, narrowed};
use crate::rules::{Core, Setting};
use crate::sheet::{lemma_reads, reads, written, Sheet};
use crate::text::{decimal, law_decimal_is_injective};
use crate::tuples::tuples;

verus! {

// ---------------------------------------------------------------------------
// The rows of the program
// ---------------------------------------------------------------------------

/// The variable that first holds object `i`.
pub open spec fn object(i: nat) -> Name {
    "a"@ + decimal(i)
}

/// The site of object `i`.
pub open spec fn place_of(i: nat) -> Name {
    "l"@ + decimal(i)
}

/// Merge `i`.
pub open spec fn merge(i: nat) -> Name {
    "c"@ + decimal(i)
}

spec fn alloc_row(i: nat) -> (Name, Name, Name) {
    ("A"@ + decimal(i), object(i), place_of(i))
}

spec fn relay_row(i: nat) -> (Name, Name, Name) {
    ("Mc"@ + decimal(i), merge(i), merge((i - 1) as nat))
}

spec fn join_row(i: nat) -> (Name, Name, Name) {
    ("Ma"@ + decimal(i), merge(i), object(i))
}

/// Every statement stands in `M`, and so do the first `n` allocations and `k` merges.
spec fn housed(s: Sheet, n: nat) -> bool {
    &&& forall|x: (Name, Name, usize)| #[trigger] s.in_proc.contains(x) ==> x.1 == "M"@
    &&& forall|i: nat| i < n ==> stands(s, #[trigger] alloc_row(i).0)
}

spec fn stands(s: Sheet, x: Name) -> bool {
    exists|l: usize| s.in_proc.contains((x, "M"@, l))
}

proof fn lemma_push<T>(s: Seq<T>, y: T)
    ensures
        forall|x: T| #[trigger] s.push(y).contains(x) <==> s.contains(x) || x == y,
{
    assert forall|x: T| #[trigger] s.push(y).contains(x) <==> s.contains(x) || x == y by {
        if s.contains(x) {
            let i = choose|i: int| 0 <= i < s.len() && s[i] == x;
            assert(s.push(y)[i] == x);
        }
        assert(s.push(y)[s.len() as int] == y);
        if s.push(y).contains(x) {
            let i = choose|i: int| 0 <= i < s.push(y).len() && s.push(y)[i] == x;
            if i < s.len() {
                assert(s[i] == x);
            }
        }
    }
}

/// The other relations are the same.
spec fn only_statements(now: Sheet, was: Sheet) -> bool {
    now == (Sheet {
        in_proc: now.in_proc,
        alloc: now.alloc,
        alloc_type: now.alloc_type,
        mov: now.mov,
        ..was
    })
}

proof fn lemma_statement(s: Sheet, x: Name)
    requires
        forall|y: (Name, Name, usize)| #[trigger] s.in_proc.contains(y) ==> y.1 == "M"@,
    ensures
        forall|y: (Name, Name, usize)| #[trigger]
            s.stmt(x, "M"@).in_proc.contains(y) ==> y.1 == "M"@,
        stands(s.stmt(x, "M"@), x),
        forall|y: Name| stands(s, y) ==> #[trigger] stands(s.stmt(x, "M"@), y),
{
    let row = (x, "M"@, crate::sheet::lines_of(s.in_proc, "M"@) as usize);
    lemma_push(s.in_proc, row);
    assert(s.stmt(x, "M"@).in_proc == s.in_proc.push(row));
    assert(s.in_proc.push(row).contains(row));
    assert forall|y: Name| stands(s, y) implies #[trigger] stands(s.stmt(x, "M"@), y) by {
        let l = choose|l: usize| s.in_proc.contains((y, "M"@, l));
        assert(s.in_proc.push(row).contains((y, "M"@, l)));
    }
}

proof fn lemma_objects(s: Sheet, n: nat)
    requires
        housed(s, 0),
        s.alloc.len() == 0,
    ensures
        housed(with_objects(s, n), n),
        only_statements(with_objects(s, n), s),
        with_objects(s, n).mov == s.mov,
        forall|x: (Name, Name, Name)| #[trigger]
            with_objects(s, n).alloc.contains(x) ==> exists|i: nat|
                i < n && x == #[trigger] alloc_row(i),
        forall|i: nat| i < n ==> with_objects(s, n).alloc.contains(#[trigger] alloc_row(i)),
        forall|y: Name| stands(s, y) ==> #[trigger] stands(with_objects(s, n), y),
    decreases n,
{
    if n > 0 {
        let k = (n - 1) as nat;
        lemma_objects(s, k);
        let was = with_objects(s, k);
        let now = with_objects(s, n);
        lemma_statement(was, alloc_row(k).0);
        lemma_push(was.alloc, alloc_row(k));
        assert(now.in_proc == was.stmt(alloc_row(k).0, "M"@).in_proc);
        assert(now.alloc == was.alloc.push(alloc_row(k)));
        assert forall|i: nat| i < n implies stands(now, #[trigger] alloc_row(i).0) by {
            if i < k {
                assert(stands(was, alloc_row(i).0));
            }
            assert(stands(was.stmt(alloc_row(k).0, "M"@), alloc_row(i).0));
        }
        assert forall|y: Name| stands(s, y) implies #[trigger] stands(now, y) by {
            assert(stands(was, y));
            assert(stands(was.stmt(alloc_row(k).0, "M"@), y));
        }
        assert forall|i: nat| i < n implies now.alloc.contains(#[trigger] alloc_row(i)) by {
            if i < k {
                assert(was.alloc.contains(alloc_row(i)));
            }
        }
    }
}

/// A move of one of the first `k` merges after the zeroth.
spec fn merge_row(x: (Name, Name, Name), k: nat) -> bool {
    exists|i: nat| 1 <= i <= k && (x == #[trigger] relay_row(i) || x == join_row(i))
}

/// The moves of the first `k` merges after the zeroth.
spec fn merged(s: Sheet, was: Sheet, k: nat) -> bool {
    &&& forall|x: (Name, Name, Name)| #[trigger]
        s.mov.contains(x) ==> was.mov.contains(x) || merge_row(x, k)
    &&& forall|x: (Name, Name, Name)| was.mov.contains(x) ==> #[trigger] s.mov.contains(x)
    &&& forall|i: nat|
        1 <= i <= k ==> s.mov.contains(#[trigger] relay_row(i)) && s.mov.contains(join_row(i))
            && stands(s, relay_row(i).0) && stands(s, join_row(i).0)
}

proof fn lemma_merges(s: Sheet, k: nat)
    requires
        housed(s, 0),
    ensures
        housed(with_merges(s, k), 0),
        only_statements(with_merges(s, k), s),
        with_merges(s, k).alloc == s.alloc,
        merged(with_merges(s, k), s, k),
        forall|y: Name| stands(s, y) ==> #[trigger] stands(with_merges(s, k), y),
    decreases k,
{
    if k > 0 {
        let j = (k - 1) as nat;
        lemma_merges(s, j);
        let was = with_merges(s, j);
        let now = with_merges(s, k);
        assert forall|x: (Name, Name, Name)| merge_row(x, j) implies #[trigger] merge_row(x, k) by {
            let i = choose|i: nat|
                1 <= i <= j && (x == #[trigger] relay_row(i) || x == join_row(i));
            assert(x == relay_row(i) || x == join_row(i));
        }
        assert(merge_row(relay_row(k), k));
        assert(merge_row(join_row(k), k)) by {
            assert(relay_row(k) == relay_row(k));
        }
        let (a, b) = (relay_row(k), join_row(k));
        let mid = was.mov(a.0, "M"@, a.1, a.2);
        lemma_statement(was, a.0);
        lemma_push(was.mov, a);
        assert(mid.in_proc == was.stmt(a.0, "M"@).in_proc);
        lemma_statement(mid, b.0);
        lemma_push(mid.mov, b);
        assert(now.in_proc == mid.stmt(b.0, "M"@).in_proc);
        assert(now == mid.mov(b.0, "M"@, b.1, b.2));
        assert forall|y: Name| stands(was, y) implies #[trigger] stands(now, y) by {
            assert(stands(was.stmt(a.0, "M"@), y));
            assert(stands(mid, y));
            assert(stands(mid.stmt(b.0, "M"@), y));
        }
        assert(stands(was.stmt(a.0, "M"@), a.0));
        assert(stands(mid, a.0));
        assert(stands(mid.stmt(b.0, "M"@), a.0));
        assert(stands(now, a.0));
        assert(stands(mid.stmt(b.0, "M"@), b.0));
        assert(stands(now, b.0));
        assert forall|i: nat| 1 <= i <= k implies now.mov.contains(#[trigger] relay_row(i))
            && now.mov.contains(join_row(i)) && stands(now, relay_row(i).0) && stands(
            now,
            join_row(i).0,
        ) by {
            if i < k {
                assert(was.mov.contains(relay_row(i)));
                assert(stands(was, relay_row(i).0));
                assert(stands(was, join_row(i).0));
            }
        }
    }
}

/// The first merge takes the first object.
spec fn first_row() -> (Name, Name, Name) {
    ("M0"@, merge(0), object(0))
}

/// What the program of `n` objects says.
spec fn listed(s: Sheet, n: nat) -> bool {
    let last = less_one(n);
    &&& housed(s, n)
    &&& forall|x: (Name, Name, Name)| #[trigger]
        s.alloc.contains(x) ==> exists|i: nat| i < n && x == #[trigger] alloc_row(i)
    &&& forall|i: nat| i < n ==> s.alloc.contains(#[trigger] alloc_row(i))
    &&& forall|x: (Name, Name, Name)| #[trigger]
        s.mov.contains(x) ==> x == first_row() || merge_row(x, last)
    &&& s.mov.contains(first_row()) && stands(s, first_row().0)
    &&& forall|i: nat|
        1 <= i <= last ==> s.mov.contains(#[trigger] relay_row(i)) && s.mov.contains(join_row(i))
            && stands(s, relay_row(i).0) && stands(s, join_row(i).0)
    &&& s.formal == seq![("M"@, 0usize, "this@M"@)]
    &&& s.ret == seq![("M"@, merge(last))]
    &&& s.load_field.len() == 0
    &&& s.direct_call.len() == 0
    &&& s.virtual_call.len() == 0
}

proof fn lemma_listed(n: nat)
    ensures
        listed(alias_sheet(n), n),
{
    reveal_strlit("c0");
    reveal_strlit("a0");
    reveal_strlit("c");
    reveal_strlit("a");
    reveal_strlit("0");
    assert(merge(0) =~= "c0"@);
    assert(object(0) =~= "a0"@);
    let last = less_one(n);
    let head = Sheet::blank().proc("M"@, seq!["this@M"@]);
    assert(head.formal =~= seq![("M"@, 0usize, "this@M"@)]);
    lemma_objects(head, n);
    let made = with_objects(head, n);
    let start = made.mov("M0"@, "M"@, "c0"@, "a0"@);
    lemma_statement(made, "M0"@);
    lemma_push(made.mov, first_row());
    assert(start.in_proc == made.stmt("M0"@, "M"@).in_proc);
    assert(stands(made.stmt("M0"@, "M"@), "M0"@));
    assert(stands(start, "M0"@));
    assert(start.mov == made.mov.push(first_row()));
    lemma_merges(start, last);
    let end = with_merges(start, last);
    let s = alias_sheet(n);
    assert(s.in_proc == end.in_proc && s.mov == end.mov && s.alloc == end.alloc);
    assert forall|y: Name| stands(end, y) implies #[trigger] stands(s, y) by {
        let l = choose|l: usize| end.in_proc.contains((y, "M"@, l));
        assert(s.in_proc.contains((y, "M"@, l)));
    }
    assert forall|i: nat| i < n implies stands(s, #[trigger] alloc_row(i).0) by {
        assert(stands(made, alloc_row(i).0));
        assert(stands(made.stmt("M0"@, "M"@), alloc_row(i).0));
        assert(stands(start, alloc_row(i).0));
        assert(stands(end, alloc_row(i).0));
    }
    assert(stands(end, "M0"@));
    assert(start.mov.contains(first_row()));
    assert forall|x: (Name, Name, Name)| #[trigger]
        s.mov.contains(x) implies x == first_row() || merge_row(x, last) by {
        assert(end.mov.contains(x));
        if x != first_row() {
            assert(!made.mov.push(first_row()).contains(x));
            assert(!start.mov.contains(x));
            assert(merge_row(x, last));
        }
    }
    assert forall|i: nat| 1 <= i <= last implies s.mov.contains(#[trigger] relay_row(i))
        && s.mov.contains(join_row(i)) && stands(s, relay_row(i).0) && stands(
        s,
        join_row(i).0,
    ) by {
        assert(stands(end, relay_row(i).0));
        assert(stands(end, join_row(i).0));
    }
    assert(s.ret =~= seq![("M"@, merge(last))]);
}

// ---------------------------------------------------------------------------
// The model
// ---------------------------------------------------------------------------

/// Object `j` is in the variable `x`.
spec fn reaches_var(n: nat, x: Name, j: nat) -> bool {
    j < n && (x == object(j) || exists|i: nat| j <= i && x == #[trigger] merge(i))
}

spec fn flows(n: nat, a: Path, b: Path) -> bool {
    ||| a == Path::var(merge(0)) && b == Path::var(object(0))
    ||| exists|i: nat|
        i >= 1 && a == Path::var(#[trigger] merge(i)) && (b == Path::var(merge((i - 1) as nat)) || b
            == Path::var(object(i)))
    ||| a == Path::var("this@M"@) && b == Path::param("M"@, 0)
    ||| a == Path::ret("M"@) && b == Path::var(merge(less_one(n)))
}

spec fn held_at(n: nat, a: Path, v: Value) -> bool {
    match v {
        Value::Path(_) => a == Path::var("this@M"@),
        Value::Const(_) => false,
        Value::Alloc(l) => a == Path::ret("M"@) || exists|x: Name, j: nat|
            a == Path::var(x) && #[trigger] reaches_var(n, x, j) && l == place_of(j),
    }
}

proof fn lemma_names(i: nat, j: nat)
    ensures
        merge(i) == merge(j) ==> i == j,
        object(i) == object(j) ==> i == j,
        merge(i) != object(j),
        merge(i) != "this@M"@,
        object(i) != "this@M"@,
{
    reveal_strlit("a");
    reveal_strlit("c");
    reveal_strlit("this@M");
    assert(merge(i)[0] == 'c');
    assert(object(i)[0] == 'a');
    assert(object(j)[0] == 'a');
    assert("this@M"@[0] == 't');
    assert(merge(i).skip(1) =~= decimal(i));
    assert(merge(j).skip(1) =~= decimal(j));
    assert(object(i).skip(1) =~= decimal(i));
    assert(object(j).skip(1) =~= decimal(j));
    if decimal(i) == decimal(j) {
        law_decimal_is_injective(i, j);
    }
}

/// What is contained flows to what contains it.
proof fn lemma_flow(n: nat, a: Path, b: Path, v: Value)
    requires
        flows(n, a, b),
        held_at(n, b, v),
    ensures
        held_at(n, a, v),
{
    if b == Path::var("this@M"@) {
        lemma_names(0, 0);
        lemma_names(less_one(n), 0);
        if exists|i: nat|
            i >= 1 && a == Path::var(#[trigger] merge(i)) && (b == Path::var(
                merge((i - 1) as nat),
            ) || b == Path::var(object(i))) {
            let i = choose|i: nat|
                i >= 1 && a == Path::var(#[trigger] merge(i)) && (b == Path::var(
                    merge((i - 1) as nat),
                ) || b == Path::var(object(i)));
            lemma_names(i, i);
            lemma_names((i - 1) as nat, i);
        }
        assert(false);
    }
    let l = v->Alloc_0;
    if a == Path::ret("M"@) {
    } else if b == Path::ret("M"@) || b == Path::param("M"@, 0) {
        assert(false);
    } else {
        let (x, j) = choose|x: Name, j: nat|
            b == Path::var(x) && #[trigger] reaches_var(n, x, j) && l == place_of(j);
        if a == Path::var(merge(0)) && b == Path::var(object(0)) {
            lemma_object(n, 0, j);
            assert(merge(0) == merge(j));
            assert(reaches_var(n, merge(0), j));
        } else {
            let i = choose|i: nat|
                i >= 1 && a == Path::var(#[trigger] merge(i)) && (b == Path::var(
                    merge((i - 1) as nat),
                ) || b == Path::var(object(i)));
            if b == Path::var(object(i)) {
                lemma_object(n, i, j);
            } else {
                lemma_merge(n, (i - 1) as nat, j);
            }
            assert(j <= i);
            assert(merge(i) == merge(i));
            assert(reaches_var(n, merge(i), j));
        }
    }
}

proof fn lemma_object(n: nat, i: nat, j: nat)
    requires
        reaches_var(n, object(i), j),
    ensures
        i == j,
{
    lemma_names(i, j);
    if object(i) != object(j) {
        let k = choose|k: nat| j <= k && object(i) == #[trigger] merge(k);
        lemma_names(k, i);
    }
}

proof fn lemma_merge(n: nat, i: nat, j: nat)
    requires
        reaches_var(n, merge(i), j),
    ensures
        j <= i,
        j < n,
{
    lemma_names(i, j);
    let k = choose|k: nat| j <= k && merge(i) == #[trigger] merge(k);
    lemma_names(i, k);
}

proof fn lemma_bounded(w: Setting, m: Core, s: Sheet, n: nat)
    requires
        w.least(Core::nothing(), m),
        reads(w.e, s),
        listed(s, n),
    ensures
        forall|p: Name, a: Path, v: Value| #[trigger]
            m.points.contains((p, a, v)) ==> p == "M"@ && held_at(n, a, v),
{
    let e = w.e;
    let edge = |p: Name, a: Path, b: Path| p == "M"@ && flows(n, a, b);
    let points = |p: Name, a: Path, v: Value| p == "M"@ && held_at(n, a, v);
    let pending = |p: Name, id: Instance| false;
    let k = narrowed(m, edge, points, pending);
    assert(forall|x: Name, y: Name| !e.direct_call.contains((x, y)));
    assert(forall|x: Name, y: Name, z: Name| !e.virtual_call.contains((x, y, z)));
    assert(forall|x: Name, y: Name| !e.eff_direct(x, y));
    assert(forall|x: Name| !e.critical(x));
    assert(forall|p: Name, id: Instance| !k.pending.contains((p, id)));
    assert(forall|p: Name, id: Instance| !w.blocked(k, p, id));
    assert(forall|p: Name, id: Instance, c: Name| !#[trigger] w.resolve(k, p, id, c));
    assert(forall|p: Name, x: Path| #[trigger] k.path_used(p, x) ==> x.steps.len() == 0);
    assert forall|p: Name, a: Path, b: Path| #[trigger] w.edge_from(k, p, a, b) implies edge(
        p,
        a,
        b,
    ) by {
        assert(!w.edge_by_extending_sup(k, p, a, b));
        assert(!w.edge_by_extending_sub(k, p, a, b));
        assert(!w.edge_by_call(k, p, a, b));
        assert(!w.edge_by_dispatch(k, p, a, b));
        assert(!w.edge_by_load(k, p, a, b));
        assert(!w.edge_by_store(k, p, a, b));
        if w.edge_by_statement(p, a, b) {
            let x = choose|x: Name| #[trigger] e.stands_in(x, p) && e.says(x, a, b);
            let l = choose|l: usize| e.in_proc.contains((x, p, l));
            assert(s.in_proc.contains((x, p, l)));
            let (to, from) = choose|to: Name, from: Name| #[trigger]
                e.mov.contains((x, to, from)) && a == Path::var(to) && b == Path::var(from);
            assert(s.mov.contains((x, to, from)));
            if (x, to, from) != first_row() {
                let i = choose|i: nat|
                    1 <= i <= less_one(n) && ((x, to, from) == #[trigger] relay_row(i) || (
                        x,
                        to,
                        from,
                    ) == join_row(i));
                assert(to == merge(i));
            }
        } else if w.edge_by_formal(p, a, b) {
            let (i, v) = choose|i: usize, v: Name| #[trigger]
                e.formal.contains((p, i, v)) && a == Path::var(v) && b == Path::param(p, i);
            assert(s.formal.contains((p, i, v)));
        } else {
            let v = choose|v: Name| #[trigger]
                e.ret.contains((p, v)) && a == Path::ret(p) && b == Path::var(v);
            assert(s.ret.contains((p, v)));
        }
    }
    assert forall|p: Name, a: Path, v: Value| #[trigger] w.points_from(k, p, a, v) implies points(
        p,
        a,
        v,
    ) by {
        assert(!w.points_by_call(k, p, a, v));
        assert(!w.points_by_dispatch(k, p, a, v));
        if w.points_by_statement(p, a, v) {
            let x = choose|x: Name| #[trigger] e.stands_in(x, p) && e.holds(x, a, v);
            let l = choose|l: usize| e.in_proc.contains((x, p, l));
            assert(s.in_proc.contains((x, p, l)));
            let (y, z) = choose|y: Name, z: Name| #[trigger]
                e.alloc.contains((x, y, z)) && a == Path::var(y) && v == Value::Alloc(z);
            assert(s.alloc.contains((x, y, z)));
            let i = choose|i: nat| i < n && (x, y, z) == #[trigger] alloc_row(i);
            assert(reaches_var(n, y, i));
        } else if w.points_by_flow(k, p, a, v) {
            let b = choose|b: Path| #[trigger]
                k.edge.contains((p, a, b)) && k.points.contains((p, b, v));
            lemma_flow(n, a, b, v);
        } else {
            let b = v->Path_0;
            assert(k.edge.contains((p, a, b)));
        }
    }
    law_rule_induction(w, m, edge, points, pending);
    assert forall|p: Name, a: Path, v: Value| #[trigger] m.points.contains((p, a, v)) implies p
        == "M"@ && held_at(n, a, v) by {
        assert(points(p, a, v));
    }
}

/// An edge between variables carries what the lower one holds.
proof fn lemma_carried(w: Setting, m: Core, s: Sheet, x: (Name, Name, Name), v: Value)
    requires
        w.closed_under(m),
        reads(w.e, s),
        s.mov.contains(x),
        stands(s, x.0),
        m.points.contains(("M"@, Path::var(x.2), v)),
    ensures
        m.points.contains(("M"@, Path::var(x.1), v)),
{
    let l = choose|l: usize| s.in_proc.contains((x.0, "M"@, l));
    assert(w.e.in_proc.contains((x.0, "M"@, l)));
    assert(w.e.stands_in(x.0, "M"@));
    assert(w.e.mov.contains((x.0, x.1, x.2)));
    let (a, b) = (Path::var(x.1), Path::var(x.2));
    assert(w.e.says(x.0, a, b));
    assert(w.edge_from(m, "M"@, a, b));
    assert(m.edge.contains(("M"@, a, b)));
    assert(w.points_from(m, "M"@, a, v));
}

proof fn lemma_present(w: Setting, m: Core, s: Sheet, n: nat, i: nat, j: nat)
    requires
        w.closed_under(m),
        reads(w.e, s),
        listed(s, n),
        j <= i < n,
    ensures
        m.points.contains(("M"@, Path::var(merge(i)), Value::Alloc(place_of(j)))),
    decreases i,
{
    let v = Value::Alloc(place_of(j));
    if j < i {
        lemma_present(w, m, s, n, (i - 1) as nat, j);
        lemma_carried(w, m, s, relay_row(i), v);
    } else {
        let row = alloc_row(j);
        let l = choose|l: usize| s.in_proc.contains((row.0, "M"@, l));
        assert(stands(s, row.0));
        assert(w.e.in_proc.contains((row.0, "M"@, l)));
        assert(w.e.stands_in(row.0, "M"@));
        assert(s.alloc.contains(row));
        assert(w.e.alloc.contains((row.0, row.1, row.2)));
        assert(w.e.holds(row.0, Path::var(object(j)), v));
        assert(w.points_from(m, "M"@, Path::var(object(j)), v));
        if i == 0 {
            lemma_carried(w, m, s, first_row(), v);
        } else {
            assert(s.mov.contains(relay_row(i)));
            lemma_carried(w, m, s, join_row(i), v);
        }
    }
}

/// Closing the allocations over the moves gives merge `i` exactly the objects `0` to `i`.
pub proof fn law_merges_collect_what_went_in(h: &HybridAnalysis, prog: Program, n: nat, i: nat)
    requires
        written(prog, alias_sheet(n)),
        analysed(h, prog),
        i < n,
    ensures
        forall|v: Value| #[trigger]
            tuples(h.points@).contains(("M"@, Path::var(merge(i)), v)) <==> exists|j: nat|
                j <= i && v == Value::Alloc(#[trigger] place_of(j)),
{
    let (w, m, s) = (h.setting(), h.said(), alias_sheet(n));
    lemma_reads(prog, s);
    lemma_listed(n);
    assert(reads(w.e, s));
    lemma_bounded(w, m, s, n);
    let a = Path::var(merge(i));
    assert forall|v: Value| #[trigger] tuples(h.points@).contains(("M"@, a, v)) implies exists|
        j: nat,
    | j <= i && v == Value::Alloc(#[trigger] place_of(j)) by {
        assert(m.points.contains(("M"@, a, v)));
        lemma_names(i, i);
        let (x, j) = choose|x: Name, j: nat|
            a == Path::var(x) && #[trigger] reaches_var(n, x, j) && v->Alloc_0 == place_of(j);
        lemma_merge(n, i, j);
    }
    assert forall|v: Value|
        (exists|j: nat| j <= i && v == Value::Alloc(#[trigger] place_of(j)))
            implies #[trigger] tuples(h.points@).contains(("M"@, a, v)) by {
        let j = choose|j: nat| j <= i && v == Value::Alloc(#[trigger] place_of(j));
        lemma_present(w, m, s, n, i, j);
    }
}

} // verus!
