//! In which order things are listed.
use vstd::prelude::*;

use crate::access_path::{Inclusion, Path, Root, Step, Value};
use crate::ir::Name;
use crate::mem::{self, listing, split, totals, Row, Usage};
use crate::order::{
    before, char_rank, inclusion_rank, name_rank, ordered, parts_at, path_rank, root_rank,
    step_rank, value_rank, Ranked,
};
use crate::tuples::tuples;

verus! {

// ---------------------------------------------------------------------------
// Names
// ---------------------------------------------------------------------------

/// `a` comes before `b` in the dictionary: it is a proper beginning of it, or has the
/// smaller character where they first differ.
pub open spec fn precedes(a: Name, b: Name) -> bool {
    exists|k: int| #[trigger] differs_at(a, b, k)
}

/// The names agree before position `k`, and there `a` ends or is smaller.
pub open spec fn differs_at(a: Name, b: Name, k: int) -> bool {
    &&& 0 <= k <= a.len()
    &&& k < b.len()
    &&& a.take(k) == b.take(k)
    &&& k == a.len() || (a[k] as int) < (b[k] as int)
}

proof fn lemma_char(c: char)
    ensures
        char_rank(c) == c as int + 1,
        char_rank(c) > 0,
{
}

proof fn lemma_same_char(c: char, d: char)
    ensures
        c as int == d as int ==> c == d,
{
}

proof fn lemma_at(a: Name)
    ensures
        name_rank(a).len() == a.len() + 1,
        name_rank(a)[a.len() as int] == 0,
        forall|i: int|
            0 <= i < a.len() ==> #[trigger] name_rank(a)[i] == char_rank(a[i]) && name_rank(a)[i]
                == a[i] as int + 1 && name_rank(a)[i] > 0,
{
    assert forall|i: int| 0 <= i < a.len() implies #[trigger] name_rank(a)[i] == char_rank(a[i])
        && name_rank(a)[i] == a[i] as int + 1 && name_rank(a)[i] > 0 by {
        lemma_char(a[i]);
    }
}

proof fn lemma_named(a: Name, b: Name, k: int)
    requires
        differs_at(a, b, k),
    ensures
        parts_at(name_rank(a), name_rank(b), k),
        k < name_rank(a).len(),
{
    lemma_at(a);
    lemma_at(b);
    assert forall|i: int| 0 <= i < k implies #[trigger] name_rank(a)[i] == name_rank(b)[i] by {
        assert(a[i] == a.take(k)[i]);
        assert(b[i] == b.take(k)[i]);
        assert(name_rank(b)[i] == char_rank(b[i]));
    }
    assert(name_rank(b)[k] == b[k] as int + 1);
    if k < a.len() {
        assert(name_rank(a)[k] == a[k] as int + 1);
    }
}

/// Names are listed as in the dictionary.
pub proof fn law_names_are_in_dictionary_order(a: Name, b: Name)
    ensures
        before(name_rank(a), name_rank(b)) <==> precedes(a, b),
{
    if precedes(a, b) {
        let k = choose|k: int| #[trigger] differs_at(a, b, k);
        lemma_named(a, b, k);
    }
    if before(name_rank(a), name_rank(b)) {
        let (x, y) = (name_rank(a), name_rank(b));
        let k = choose|k: int| parts_at(x, y, k);
        lemma_at(a);
        lemma_at(b);
        if k > a.len() {
            assert(x[a.len() as int] == y[a.len() as int]);
            assert(y[a.len() as int] == b[a.len() as int] as int + 1);
        }
        assert(x[k] < y[k]);
        assert(k < b.len());
        assert forall|i: int| 0 <= i < k implies a[i] == b[i] by {
            assert(x[i] == y[i]);
            assert(x[i] == a[i] as int + 1);
            assert(y[i] == b[i] as int + 1);
            lemma_same_char(a[i], b[i]);
        }
        assert(y[k] == b[k] as int + 1);
        if k < a.len() {
            assert(x[k] == a[k] as int + 1);
        }
        assert(a.take(k) =~= b.take(k));
        assert(differs_at(a, b, k));
    }
}

// ---------------------------------------------------------------------------
// Roots, accessors and values
// ---------------------------------------------------------------------------

proof fn lemma_framed(
    p: Seq<usize>,
    a: Seq<usize>,
    b: Seq<usize>,
    x: Seq<usize>,
    y: Seq<usize>,
    k: int,
)
    requires
        parts_at(a, b, k),
        k < a.len(),
    ensures
        before(p + a + x, p + b + y),
{
    let (u, v) = (p + a + x, p + b + y);
    let n = p.len() + k;
    assert forall|i: int| 0 <= i < n implies #[trigger] u[i] == v[i] by {
        if i >= p.len() {
            assert(a[i - p.len()] == b[i - p.len()]);
        }
    }
    assert(parts_at(u, v, n));
}

/// Locals come first, then formals, return values, operands and results.
pub open spec fn root_place(r: Root) -> int {
    match r {
        Root::Var(_) => 0,
        Root::Param(_, _) => 1,
        Root::Ret(_) => 2,
        Root::Slot(_, _) => 3,
        Root::Res(_) => 4,
    }
}

/// Fields come first, then indices, then what is undecided.
pub open spec fn step_place(a: Step) -> int {
    match a {
        Step::Field(_) => 0,
        Step::Index(_) => 1,
        Step::Unknown => 2,
    }
}

/// Paths come first, then sites, then constants.
pub open spec fn value_place(v: Value) -> int {
    match v {
        Value::Path(_) => 0,
        Value::Alloc(_) => 1,
        Value::Const(_) => 2,
    }
}

/// What is of an earlier kind is listed earlier: roots, accessors, values and constraints.
pub proof fn law_kinds_are_in_order(
    r: Root,
    s: Root,
    a: Step,
    b: Step,
    v: Value,
    w: Value,
    c: Inclusion,
    d: Inclusion,
)
    ensures
        root_place(r) < root_place(s) ==> before(root_rank(r), root_rank(s)),
        step_place(a) < step_place(b) ==> before(step_rank(a), step_rank(b)),
        value_place(v) < value_place(w) ==> before(value_rank(v), value_rank(w)),
        value_place(c.sub) < value_place(d.sub) ==> before(inclusion_rank(c), inclusion_rank(d)),
{
    assert(root_rank(r)[0] == root_place(r));
    assert(root_rank(s)[0] == root_place(s));
    if root_place(r) < root_place(s) {
        assert(parts_at(root_rank(r), root_rank(s), 0));
    }
    assert(step_rank(a)[0] == step_place(a));
    assert(step_rank(b)[0] == step_place(b));
    if step_place(a) < step_place(b) {
        assert(parts_at(step_rank(a), step_rank(b), 0));
    }
    assert(value_rank(v)[0] == value_place(v));
    assert(value_rank(w)[0] == value_place(w));
    if value_place(v) < value_place(w) {
        assert(parts_at(value_rank(v), value_rank(w), 0));
    }
    assert(inclusion_rank(c)[0] == value_place(c.sub));
    assert(inclusion_rank(d)[0] == value_place(d.sub));
    if value_place(c.sub) < value_place(d.sub) {
        assert(parts_at(inclusion_rank(c), inclusion_rank(d), 0));
    }
}

/// Within a kind the names decide, and of formals of one procedure the positions.
pub proof fn law_names_decide_within_a_kind(p: Name, q: Name, i: usize, j: usize)
    ensures
        precedes(p, q) ==> {
            &&& before(root_rank(Root::Var(p)), root_rank(Root::Var(q)))
            &&& before(root_rank(Root::Param(p, i)), root_rank(Root::Param(q, j)))
            &&& before(root_rank(Root::Ret(p)), root_rank(Root::Ret(q)))
            &&& before(step_rank(Step::Field(p)), step_rank(Step::Field(q)))
            &&& before(step_rank(Step::Index(p)), step_rank(Step::Index(q)))
            &&& before(value_rank(Value::Alloc(p)), value_rank(Value::Alloc(q)))
            &&& before(value_rank(Value::Const(p)), value_rank(Value::Const(q)))
        },
        i < j ==> before(root_rank(Root::Param(p, i)), root_rank(Root::Param(p, j))),
{
    let (a, b) = (name_rank(p), name_rank(q));
    if precedes(p, q) {
        let k = choose|k: int| #[trigger] differs_at(p, q, k);
        lemma_named(p, q, k);
        let none = Seq::<usize>::empty();
        lemma_framed(seq![0usize], a, b, none, none, k);
        lemma_framed(seq![1usize], a, b, none, none, k);
        lemma_framed(seq![2usize], a, b, none, none, k);
        lemma_framed(seq![1usize], a, b, seq![i], seq![j], k);
        assert(seq![0usize] + a + none =~= seq![0usize] + a);
        assert(seq![0usize] + b + none =~= seq![0usize] + b);
        assert(seq![1usize] + a + none =~= seq![1usize] + a);
        assert(seq![1usize] + b + none =~= seq![1usize] + b);
        assert(seq![2usize] + a + none =~= seq![2usize] + a);
        assert(seq![2usize] + b + none =~= seq![2usize] + b);
    }
    if i < j {
        lemma_at(p);
        let (x, y) = (root_rank(Root::Param(p, i)), root_rank(Root::Param(p, j)));
        let n = 1 + a.len();
        assert(x[n as int] == i && y[n as int] == j);
        assert(parts_at(x, y, n as int));
    }
}

/// A path off a root of an earlier kind comes earlier, and a root comes before its own
/// accessors.
pub proof fn law_roots_decide_first(u: Path, v: Path, r: Root, a: Step)
    ensures
        root_place(u.root) < root_place(v.root) ==> before(path_rank(u), path_rank(v)),
        before(path_rank(Path::bare(r)), path_rank(Path::bare(r).then_step(a))),
{
    assert(root_rank(u.root)[0] == root_place(u.root));
    assert(root_rank(v.root)[0] == root_place(v.root));
    if root_place(u.root) < root_place(v.root) {
        assert(parts_at(path_rank(u), path_rank(v), 0));
    }
    let (x, y) = (Path::bare(r), Path::bare(r).then_step(a));
    let n = root_rank(r).len() as int;
    assert(y.steps.len() == 1);
    assert(path_rank(x)[n] == 0);
    assert(path_rank(y)[n] == 1);
    assert(parts_at(path_rank(x), path_rank(y), n));
}

/// A list in order has what the list had, each once, and the earlier first.
pub proof fn law_ordering_sorts<T: Ranked>(v: &Vec<T>, r: Vec<T>, i: int, j: int)
    requires
        call_ensures(ordered::<T>, (v,), r),
    ensures
        forall|x: T::V| #[trigger] tuples(r@).contains(x) <==> tuples(v@).contains(x),
        0 <= i < j < r@.len() ==> before(T::rank(r@[i]@), T::rank(r@[j]@)),
{
}

// ---------------------------------------------------------------------------
// The table of a report
// ---------------------------------------------------------------------------

/// The table lists the relations that hold a tuple, and no others; more bytes come first,
/// and of equal bytes the earlier name.
pub proof fn law_the_table_is_sorted(rels: Vec<Row>, r: Vec<Row>, i: int, j: int, x: Row)
    requires
        call_ensures(listing, (rels,), r),
    ensures
        r@.contains(x) <==> rels@.contains(x) && x.1 > 0,
        0 <= i < j < r@.len() ==> r@[i].2 >= r@[j].2,
        0 <= i < j < r@.len() && r@[i].2 == r@[j].2 ==> !precedes(r@[j].0@, r@[i].0@),
{
    let rows = mem::in_use(rels@);
    assert(r@.to_multiset() == rows.to_multiset());
    r@.to_multiset_ensures();
    rows.to_multiset_ensures();
    assert(r@.contains(x) <==> r@.to_multiset().count(x) > 0);
    assert(rows.contains(x) <==> rows.to_multiset().count(x) > 0);
    assert(rows.contains(x) <==> rels@.contains(x) && x.1 > 0) by {
        lemma_in_use(rels@, x);
    }
    if 0 <= i < j < r@.len() {
        assert(!mem::above_row(r@[j], r@[i]));
        law_names_are_in_dictionary_order(r@[j].0@, r@[i].0@);
    }
}

proof fn lemma_in_use(rels: Seq<Row>, x: Row)
    ensures
        mem::in_use(rels).contains(x) <==> rels.contains(x) && x.1 > 0,
    decreases rels.len(),
{
    reveal(Seq::filter);
    if rels.len() > 0 {
        let less = rels.drop_last();
        lemma_in_use(less, x);
        let (now, was) = (mem::in_use(rels), mem::in_use(less));
        if rels.last().1 > 0 {
            assert(now == was.push(rels.last()));
        } else {
            assert(now == was);
        }
        if rels.contains(x) {
            let k = choose|k: int| 0 <= k < rels.len() && rels[k] == x;
            if k < less.len() {
                assert(less[k] == x);
            }
        }
        if less.contains(x) {
            let k = choose|k: int| 0 <= k < less.len() && less[k] == x;
            assert(rels[k] == x);
        }
        if was.contains(x) {
            let k = choose|k: int| 0 <= k < was.len() && was[k] == x;
            assert(now[k] == x);
        }
        if rels.last() == x && x.1 > 0 {
            assert(now[was.len() as int] == x);
            assert(rels[rels.len() - 1] == x);
        }
        if now.contains(x) {
            let k = choose|k: int| 0 <= k < now.len() && now[k] == x;
            if k < was.len() {
                assert(was[k] == x);
            }
        }
    }
}

/// The totals of a table are sums over its lines, and what was measured leaves the rest of
/// the retained bytes.
pub proof fn law_the_totals_add_up(
    rows: &Vec<Row>,
    r: (usize, usize),
    some: Seq<Row>,
    x: Row,
    vecs: usize,
    payload: usize,
    usage: &Usage,
    parts: (usize, usize, usize),
)
    requires
        call_ensures(totals, (rows,), r),
        call_ensures(split, (vecs, payload, usage), parts),
        vecs + payload <= usize::MAX,
    ensures
        r == (mem::row_tuples(rows@) as usize, mem::row_bytes(rows@) as usize),
        mem::row_tuples(Seq::empty()) == 0 && mem::row_bytes(Seq::empty()) == 0,
        mem::row_tuples(some.push(x)) == mem::row_tuples(some) + x.1,
        mem::row_bytes(some.push(x)) == mem::row_bytes(some) + x.2,
        parts.0 == vecs && parts.1 == payload,
        usage.retained >= vecs + payload ==> parts.0 + parts.1 + parts.2 == usage.retained,
        usage.retained < vecs + payload ==> parts.2 == 0,
{
    assert(some.push(x).drop_last() =~= some);
}

} // verus!
