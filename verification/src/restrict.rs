//! Cutting a program down to its largest procedures.
use vstd::prelude::*;

use crate::codes::Names;
use crate::ir::{self, Line, Name, Proc, Program, Stmt, Symbol};
use crate::order::{self, Ranked};
use crate::rows::{self, Datum};
use crate::tuples::tuples;

verus! {

// ---------------------------------------------------------------------------
// What is kept
// ---------------------------------------------------------------------------

/// How many statements `q` has.
pub open spec fn weight(v: Seq<(Stmt, Proc, Line)>, q: Name) -> nat
    decreases v.len(),
{
    if v.len() == 0 {
        0
    } else {
        weight(v.drop_last(), q) + (if v.last().1@ == q {
            1nat
        } else {
            0
        })
    }
}

/// `a` has more statements than `b`, or as many and a name that comes first.
pub open spec fn beats(v: Seq<(Stmt, Proc, Line)>, a: Name, b: Name) -> bool {
    weight(v, a) > weight(v, b) || weight(v, a) == weight(v, b) && order::before(
        order::name_rank(a),
        order::name_rank(b),
    )
}

/// The procedures with statements that beat `q`.
pub open spec fn rivals(v: Seq<(Stmt, Proc, Line)>, q: Name) -> Set<Name> {
    Set::new(|x: Name| weight(v, x) > 0 && beats(v, x, q))
}

/// The `n` procedures with the most statements.
pub open spec fn largest(v: Seq<(Stmt, Proc, Line)>, n: nat) -> Set<Name> {
    Set::new(|q: Name| weight(v, q) > 0 && rivals(v, q).len() < n)
}

/// The statements of some procedures.
pub open spec fn bodies(v: Seq<(Stmt, Proc, Line)>, procs: Set<Name>) -> Set<Name> {
    Set::new(
        |s: Name|
            exists|i: int| 0 <= i < v.len() && (#[trigger] v[i]).0@ == s && procs.contains(v[i].1@),
    )
}

/// The rows with one of the names in column `col`, in order.
pub open spec fn rows_where(rows: Seq<Seq<Datum>>, col: int, names: Set<Name>) -> Seq<Seq<Datum>>
    decreases rows.len(),
{
    if rows.len() == 0 {
        Seq::empty()
    } else {
        let rest = rows_where(rows.drop_last(), col, names);
        if names.contains(rows.last()[col].text()) {
            rest.push(rows.last())
        } else {
            rest
        }
    }
}

/// `r` is `p` without everything that mentions another procedure or a statement of one.
/// Type-level facts are kept whole. The vocabulary is left empty: the bound of a smaller
/// program is its own.
pub open spec fn cut_down(r: Program, p: Program, procs: Set<Name>) -> bool {
    let stmts = bodies(p.in_proc@, procs);
    &&& rows::one_rows(r.procedure@) == rows_where(rows::one_rows(p.procedure@), 0, procs)
    &&& rows::two_rows(r.proc_type@) == rows_where(rows::two_rows(p.proc_type@), 0, procs)
    &&& rows::two_rows(r.proc_sig@) == rows_where(rows::two_rows(p.proc_sig@), 0, procs)
    &&& rows::one_rows(r.entry@) == rows_where(rows::one_rows(p.entry@), 0, procs)
    &&& rows::indexed_rows(r.formal@) == rows_where(rows::indexed_rows(p.formal@), 0, procs)
    &&& rows::two_rows(r.ret@) == rows_where(rows::two_rows(p.ret@), 0, procs)
    &&& rows::placed_rows(r.in_proc@) == rows_where(rows::placed_rows(p.in_proc@), 1, procs)
    &&& rows::three_rows(r.alloc@) == rows_where(rows::three_rows(p.alloc@), 0, stmts)
    &&& rows::three_rows(r.const_assign@) == rows_where(rows::three_rows(p.const_assign@), 0, stmts)
    &&& rows::three_rows(r.mov@) == rows_where(rows::three_rows(p.mov@), 0, stmts)
    &&& rows::four_rows(r.load_field@) == rows_where(rows::four_rows(p.load_field@), 0, stmts)
    &&& rows::four_rows(r.store_field@) == rows_where(rows::four_rows(p.store_field@), 0, stmts)
    &&& rows::four_rows(r.load_static@) == rows_where(rows::four_rows(p.load_static@), 0, stmts)
    &&& rows::four_rows(r.store_static@) == rows_where(rows::four_rows(p.store_static@), 0, stmts)
    &&& rows::four_rows(r.load_index_const@) == rows_where(rows::four_rows(p.load_index_const@), 0,
        stmts)
    &&& rows::four_rows(r.store_index_const@) == rows_where(rows::four_rows(p.store_index_const@),
        0,
        stmts)
    &&& rows::four_rows(r.load_index_var@) == rows_where(rows::four_rows(p.load_index_var@), 0,
        stmts)
    &&& rows::four_rows(r.store_index_var@) == rows_where(rows::four_rows(p.store_index_var@), 0,
        stmts)
    &&& rows::three_rows(r.virtual_call@) == rows_where(rows::three_rows(p.virtual_call@), 0, stmts)
    &&& rows::indexed_rows(r.actual_arg@) == rows_where(rows::indexed_rows(p.actual_arg@), 0, stmts)
    &&& rows::two_rows(r.bind_ret@) == rows_where(rows::two_rows(p.bind_ret@), 0, stmts)
    &&& rows::two_rows(r.direct_call@) == rows_where(
        rows_where(rows::two_rows(p.direct_call@), 0, stmts),
        1,
        procs,
    )
    &&& rows::two_rows(r.alloc_type@) == rows::two_rows(p.alloc_type@)
    &&& rows::two_rows(r.direct_subtype@) == rows::two_rows(p.direct_subtype@)
    &&& rows::three_rows(r.lookup@) == rows::three_rows(p.lookup@)
    &&& r.paths@.len() == 0
}

// ---------------------------------------------------------------------------
// Finding the largest
// ---------------------------------------------------------------------------

/// A procedure filed so that the one with the most statements comes first.
struct Weighed {
    /// How far the number of statements is from the largest number there is.
    lack: usize,
    proc: Proc,
}

impl View for Weighed {
    type V = (usize, Name);

    closed spec fn view(&self) -> (usize, Name) {
        (self.lack, self.proc@)
    }
}

impl Ranked for Weighed {
    closed spec fn rank(x: (usize, Name)) -> Seq<usize> {
        seq![x.0] + order::name_rank(x.1)
    }

    proof fn lemma_rank(x: (usize, Name), y: (usize, Name)) {
        let (a, b) = (order::name_rank(x.1), order::name_rank(y.1));
        let (l, r) = (seq![x.0] + a, seq![y.0] + b);
        assert(l[0] == x.0 && r[0] == y.0);
        order::lemma_skip(seq![x.0], a, b);
        assert(a + Seq::<usize>::empty() =~= a);
        assert(b + Seq::<usize>::empty() =~= b);
        order::lemma_name_rank(x.1, y.1, Seq::empty(), Seq::empty());
    }

    fn key(&self) -> (r: Vec<usize>) {
        let mut out: Vec<usize> = Vec::new();
        order::put(&mut out, self.lack);
        order::put_name(&mut out, self.proc.text());
        proof {
            assert(out@ =~= seq![self.lack] + order::name_rank(self.proc@));
        }
        out
    }

    fn twin(&self) -> (r: Self) {
        Weighed { lack: self.lack, proc: self.proc.clone() }
    }
}

proof fn lemma_weight_bounded(v: Seq<(Stmt, Proc, Line)>, q: Name)
    ensures
        weight(v, q) <= v.len(),
    decreases v.len(),
{
    if v.len() > 0 {
        lemma_weight_bounded(v.drop_last(), q);
    }
}

/// How far `q` is from the largest number of statements there is.
spec fn lack(v: Seq<(Stmt, Proc, Line)>, q: Name) -> usize {
    (usize::MAX - weight(v, q)) as usize
}

/// The order of the filing is who beats whom.
proof fn lemma_filing(v: Seq<(Stmt, Proc, Line)>, a: Name, b: Name)
    requires
        v.len() <= usize::MAX,
    ensures
        order::before(Weighed::rank((lack(v, a), a)), Weighed::rank((lack(v, b), b))) <==> beats(
            v,
            a,
            b,
        ),
{
    lemma_weight_bounded(v, a);
    lemma_weight_bounded(v, b);
    let (ra, rb) = (order::name_rank(a), order::name_rank(b));
    let (x, y) = (seq![lack(v, a)] + ra, seq![lack(v, b)] + rb);
    assert(x[0] == lack(v, a) && y[0] == lack(v, b));
    if order::before(x, y) {
        let k = choose|k: int| order::parts_at(x, y, k);
        if k > 0 {
            assert(x[0] == y[0]);
            assert(order::parts_at(ra, rb, k - 1)) by {
                assert forall|i: int| 0 <= i < k - 1 implies #[trigger] ra[i] == rb[i] by {
                    assert(x[i + 1] == y[i + 1]);
                }
                if k < x.len() {
                    assert(x[k] == ra[k - 1] && y[k] == rb[k - 1]);
                }
            }
        }
    }
    if beats(v, a, b) {
        if weight(v, a) > weight(v, b) {
            assert(order::parts_at(x, y, 0));
        } else {
            let k = choose|k: int| order::parts_at(ra, rb, k);
            assert(order::parts_at(x, y, k + 1)) by {
                assert forall|i: int| 0 <= i < k + 1 implies #[trigger] x[i] == y[i] by {
                    if i > 0 {
                        assert(ra[i - 1] == rb[i - 1]);
                    }
                }
            }
        }
    }
}

/// The procedures with statements, filed.
fn file(v: &Vec<(Stmt, Proc, Line)>) -> (r: Vec<Weighed>)
    ensures
        tuples(r@) == Set::new(|x: (usize, Name)| weight(v@, x.1) > 0 && x.0 == lack(v@, x.1)),
        order::ascending(r@),
{
    let mut names = Names::new();
    let mut counts: Vec<usize> = Vec::new();
    let mut i: usize = 0;
    while i < v.len()
        invariant
            i <= v@.len(),
            names.wf(),
            counts@.len() == names@.len(),
            forall|c: int|
                0 <= c < counts@.len() ==> (#[trigger] counts@[c]) == weight(
                    v@.take(i as int),
                    names@[c],
                ) && counts@[c] > 0,
            forall|q: Name| !names@.contains(q) ==> #[trigger] weight(v@.take(i as int), q) == 0,
        decreases v@.len() - i,
    {
        let ghost (n0, c0) = (names@, counts@);
        let ghost (was, now) = (v@.take(i as int), v@.take(i + 1));
        let ghost key = v@[i as int].1@;
        proof {
            assert(now.drop_last() =~= was);
            assert(now.last() == v@[i as int]);
        }
        let n: usize = names.len();
        let c: usize = names.number(v[i].1.text());
        proof {
            names.lemma_distinct();
            lemma_weight_bounded(was, key);
        }
        if c == n {
            counts.push(1);
            proof {
                assert(!n0.contains(key));
                assert(weight(was, key) == 0);
            }
        } else {
            proof {
                assert(names@[c as int] == n0[c as int]);
                assert(n0.contains(key));
                assert(counts@[c as int] == weight(was, key));
                assert(v.len() == v@.len());
            }
            let k: usize = counts[c] + 1;
            counts.set(c, k);
        }
        proof {
            assert forall|d: int| 0 <= d < counts@.len() implies (#[trigger] counts@[d]) == weight(
                now,
                names@[d],
            ) && counts@[d] > 0 by {
                if d != c {
                    assert(names@[d] != names@[c as int]);
                    assert(counts@[d] == c0[d]);
                    assert(names@[d] == n0[d]);
                }
            }
            assert forall|q: Name| !names@.contains(q) implies #[trigger] weight(now, q) == 0 by {
                assert(names@.contains(names@[c as int]));
                if n0.contains(q) {
                    let d = choose|d: int| 0 <= d < n0.len() && n0[d] == q;
                    assert(names@[d] == q);
                }
                assert(weight(was, q) == 0);
            }
        }
        i += 1;
    }
    proof {
        assert(v@.take(i as int) =~= v@);
    }
    let mut list: Vec<Weighed> = Vec::new();
    let mut c: usize = 0;
    while c < counts.len()
        invariant
            c <= counts@.len(),
            counts@.len() == names@.len(),
            list@.len() == c,
            forall|d: int|
                0 <= d < counts@.len() ==> (#[trigger] counts@[d]) == weight(v@, names@[d]),
            forall|d: int|
                0 <= d < c ==> (#[trigger] list@[d])@ == (lack(v@, names@[d]), names@[d]),
        decreases counts@.len() - c,
    {
        let w = Weighed { lack: usize::MAX - counts[c], proc: Proc::of(names.text(c).clone()) };
        list.push(w);
        c += 1;
    }
    let ghost rel = Set::new(|x: (usize, Name)| weight(v@, x.1) > 0 && x.0 == lack(v@, x.1));
    proof {
        assert(tuples(list@) =~= rel) by {
            assert forall|x: (usize, Name)| rel.contains(x) implies #[trigger] tuples(
                list@,
            ).contains(x) by {
                assert(names@.contains(x.1));
                let d = choose|d: int| 0 <= d < names@.len() && names@[d] == x.1;
                assert(list@[d]@ == x);
            }
            assert forall|x: (usize, Name)| #[trigger] tuples(list@).contains(x)
                implies rel.contains(
                x,
            ) by {
                let d = choose|d: int| 0 <= d < list@.len() && (#[trigger] list@[d])@ == x;
                assert(counts@[d] == weight(v@, names@[d]));
            }
        }
    }
    order::ordered(&list)
}

/// The first `i` procedures of the filing are the rivals of the next one.
proof fn lemma_place(v: Seq<(Stmt, Proc, Line)>, list: Seq<Weighed>, i: int)
    requires
        v.len() <= usize::MAX,
        tuples(list) == Set::new(|x: (usize, Name)| weight(v, x.1) > 0 && x.0 == lack(v, x.1)),
        order::ascending(list),
        0 <= i < list.len(),
    ensures
        rivals(v, list[i]@.1).len() == i,
        weight(v, list[i]@.1) > 0,
{
    let q = list[i]@.1;
    let ahead = Seq::new(i as nat, |j: int| list[j]@.1);
    assert forall|j: int| 0 <= j < list.len() implies weight(v, #[trigger] list[j]@.1) > 0
        && list[j]@.0 == lack(v, list[j]@.1) by {
        assert(tuples(list).contains(list[j]@));
    }
    assert(weight(v, list[i]@.1) > 0);
    assert(ahead.no_duplicates()) by {
        assert forall|a: int, b: int| 0 <= a < b < ahead.len() implies ahead[a] != ahead[b] by {
            assert(order::before(Weighed::rank(list[a]@), Weighed::rank(list[b]@)));
            if ahead[a] == ahead[b] {
                assert(weight(v, list[a]@.1) > 0 && weight(v, list[b]@.1) > 0);
                assert(list[a]@ == list[b]@);
                order::lemma_before_asymmetric(Weighed::rank(list[a]@), Weighed::rank(list[b]@));
            }
        }
    }
    ahead.unique_seq_to_set();
    assert(rivals(v, q) =~= ahead.to_set()) by {
        assert forall|x: Name| rivals(v, q).contains(x) <==> ahead.to_set().contains(x) by {
            lemma_filing(v, x, q);
            assert(list[i]@ == (lack(v, q), q));
            if rivals(v, q).contains(x) {
                let w = (lack(v, x), x);
                assert(tuples(list).contains(w));
                let j = choose|j: int| 0 <= j < list.len() && (#[trigger] list[j])@ == w;
                if j >= i {
                    if j > i {
                        assert(order::before(Weighed::rank(list[i]@), Weighed::rank(list[j]@)));
                    }
                    order::lemma_before_asymmetric(Weighed::rank(w), Weighed::rank(list[i]@));
                }
                assert(ahead[j] == x);
            }
            if ahead.to_set().contains(x) {
                let j = choose|j: int| 0 <= j < ahead.len() && ahead[j] == x;
                assert(order::before(Weighed::rank(list[j]@), Weighed::rank(list[i]@)));
                assert(weight(v, list[j]@.1) > 0 && list[j]@.0 == lack(v, list[j]@.1));
            }
        }
    }
}

/// The `n` procedures with the most statements.
fn find_largest(v: &Vec<(Stmt, Proc, Line)>, n: usize) -> (r: Names)
    ensures
        r.wf(),
        r@.to_set() == largest(v@, n as nat),
{
    let list = file(v);
    let mut r = Names::new();
    let mut i: usize = 0;
    while i < list.len() && i < n
        invariant
            i <= list@.len(),
            i <= n,
            r.wf(),
            forall|q: Name| #[trigger]
                r@.contains(q) <==> exists|j: int| 0 <= j < i && (#[trigger] list@[j])@.1 == q,
        decreases list@.len() - i,
    {
        let ghost r0 = r@;
        let ghost x = list@[i as int]@.1;
        r.number(list[i].proc.text());
        proof {
            assert forall|q: Name| #[trigger]
                r@.contains(q) <==> exists|j: int|
                    0 <= j < i + 1 && (#[trigger] list@[j])@.1 == q by {
                if r0.contains(q) {
                    let d = choose|d: int| 0 <= d < r0.len() && r0[d] == q;
                    assert(r@[d] == q);
                    let j = choose|j: int| 0 <= j < i && (#[trigger] list@[j])@.1 == q;
                    assert(list@[j]@.1 == q);
                }
                if q == x {
                    assert(list@[i as int]@.1 == q);
                    if !r0.contains(q) {
                        assert(r@[r0.len() as int] == q);
                    }
                }
                if r@.contains(q) && !r0.contains(q) {
                    let d = choose|d: int| 0 <= d < r@.len() && r@[d] == q;
                    if d < r0.len() {
                        assert(r0[d] == q);
                    }
                }
            }
        }
        i += 1;
    }
    proof {
        assert(v.len() == v@.len());
        assert forall|q: Name| r@.to_set().contains(q) <==> largest(v@, n as nat).contains(q) by {
            assert(r@.to_set().contains(q) <==> r@.contains(q));
            if r@.contains(q) {
                let j = choose|j: int| 0 <= j < i && (#[trigger] list@[j])@.1 == q;
                lemma_place(v@, list@, j);
            }
            if largest(v@, n as nat).contains(q) {
                let w = (lack(v@, q), q);
                assert(tuples(list@).contains(w));
                let j = choose|j: int| 0 <= j < list@.len() && (#[trigger] list@[j])@ == w;
                lemma_place(v@, list@, j);
                assert(list@[j]@.1 == q);
            }
        }
        assert(r@.to_set() =~= largest(v@, n as nat));
    }
    r
}

/// The statements of some procedures.
fn find_bodies(v: &Vec<(Stmt, Proc, Line)>, procs: &Names) -> (r: Names)
    requires
        procs.wf(),
    ensures
        r.wf(),
        r@.to_set() == bodies(v@, procs@.to_set()),
{
    let ghost set = procs@.to_set();
    let mut r = Names::new();
    let mut i: usize = 0;
    while i < v.len()
        invariant
            i <= v@.len(),
            r.wf(),
            procs.wf(),
            set == procs@.to_set(),
            forall|s: Name| #[trigger]
                r@.contains(s) <==> exists|j: int|
                    0 <= j < i && (#[trigger] v@[j]).0@ == s && set.contains(v@[j].1@),
        decreases v@.len() - i,
    {
        let ghost r0 = r@;
        let ghost x = v@[i as int];
        let kept = has(procs, v[i].1.text());
        if kept {
            r.number(v[i].0.text());
        }
        proof {
            assert forall|s: Name| #[trigger]
                r@.contains(s) <==> exists|j: int|
                    0 <= j < i + 1 && (#[trigger] v@[j]).0@ == s && set.contains(v@[j].1@) by {
                if r0.contains(s) {
                    let d = choose|d: int| 0 <= d < r0.len() && r0[d] == s;
                    assert(r@[d] == s);
                    let j = choose|j: int|
                        0 <= j < i && (#[trigger] v@[j]).0@ == s && set.contains(v@[j].1@);
                    assert(v@[j].0@ == s);
                }
                if kept && s == x.0@ {
                    assert(v@[i as int].0@ == s);
                    if !r0.contains(s) {
                        assert(r@[r0.len() as int] == s);
                    }
                }
                if r@.contains(s) && !r0.contains(s) {
                    let d = choose|d: int| 0 <= d < r@.len() && r@[d] == s;
                    if d < r0.len() {
                        assert(r0[d] == s);
                    }
                }
            }
        }
        i += 1;
    }
    proof {
        assert(r@.to_set() =~= bodies(v@, set)) by {
            assert forall|s: Name| r@.to_set().contains(s) <==> bodies(v@, set).contains(s) by {
                assert(r@.to_set().contains(s) <==> r@.contains(s));
            }
        }
    }
    r
}

fn has(names: &Names, s: &String) -> (r: bool)
    requires
        names.wf(),
    ensures
        r == names@.to_set().contains(s@),
{
    match names.find(s) {
        Some(i) => {
            proof {
                assert(names@[i as int] == s@);
            }
            true
        },
        None => false,
    }
}

// ---------------------------------------------------------------------------
// Keeping rows
// ---------------------------------------------------------------------------

fn keep_one<A: Symbol>(v: &Vec<(A,)>, names: &Names) -> (r: Vec<(A,)>)
    requires
        names.wf(),
    ensures
        rows::one_rows(r@) == rows_where(rows::one_rows(v@), 0, names@.to_set()),
{
    let ghost all = rows::one_rows(v@);
    let ghost set = names@.to_set();
    let mut r: Vec<(A,)> = Vec::new();
    let mut i: usize = 0;
    proof {
        assert(rows::one_rows(r@) =~= rows_where(all.take(0), 0, set));
    }
    while i < v.len()
        invariant
            i <= v@.len(),
            names.wf(),
            all == rows::one_rows(v@),
            set == names@.to_set(),
            rows::one_rows(r@) == rows_where(all.take(i as int), 0, set),
        decreases v@.len() - i,
    {
        let ghost row = all[i as int];
        let ghost r0 = r@;
        proof {
            assert(all.take(i + 1).drop_last() =~= all.take(i as int));
            assert(all.take(i + 1).last() == row);
        }
        let key = v[i].0.text();
        if has(names, key) {
            let x = (A::of(v[i].0.text().clone()),);
            r.push(x);
            proof {
                assert(rows::one_rows(r@).last() =~= row);
                assert(rows::one_rows(r@) =~= rows::one_rows(r0).push(row));
            }
        }
        i += 1;
    }
    proof {
        assert(all.take(i as int) =~= all);
    }
    r
}

fn keep_two<A: Symbol, B: Symbol>(v: &Vec<(A, B)>, names: &Names, col: usize) -> (r: Vec<(A, B)>)
    requires
        names.wf(),
        col < 2,
    ensures
        rows::two_rows(r@) == rows_where(rows::two_rows(v@), col as int, names@.to_set()),
{
    let ghost all = rows::two_rows(v@);
    let ghost set = names@.to_set();
    let mut r: Vec<(A, B)> = Vec::new();
    let mut i: usize = 0;
    proof {
        assert(rows::two_rows(r@) =~= rows_where(all.take(0), col as int, set));
    }
    while i < v.len()
        invariant
            i <= v@.len(),
            names.wf(),
            col < 2,
            all == rows::two_rows(v@),
            set == names@.to_set(),
            rows::two_rows(r@) == rows_where(all.take(i as int), col as int, set),
        decreases v@.len() - i,
    {
        let ghost row = all[i as int];
        let ghost r0 = r@;
        proof {
            assert(all.take(i + 1).drop_last() =~= all.take(i as int));
            assert(all.take(i + 1).last() == row);
        }
        let key = if col == 0 {
            v[i].0.text()
        } else {
            v[i].1.text()
        };
        if has(names, key) {
            let x = (A::of(v[i].0.text().clone()), B::of(v[i].1.text().clone()));
            r.push(x);
            proof {
                assert(rows::two_rows(r@).last() =~= row);
                assert(rows::two_rows(r@) =~= rows::two_rows(r0).push(row));
            }
        }
        i += 1;
    }
    proof {
        assert(all.take(i as int) =~= all);
    }
    r
}

fn keep_three<A: Symbol, B: Symbol,
    C: Symbol>(v: &Vec<(A, B, C)>, names: &Names) -> (r: Vec<(A, B, C)>)
    requires
        names.wf(),
    ensures
        rows::three_rows(r@) == rows_where(rows::three_rows(v@), 0, names@.to_set()),
{
    let ghost all = rows::three_rows(v@);
    let ghost set = names@.to_set();
    let mut r: Vec<(A, B, C)> = Vec::new();
    let mut i: usize = 0;
    proof {
        assert(rows::three_rows(r@) =~= rows_where(all.take(0), 0, set));
    }
    while i < v.len()
        invariant
            i <= v@.len(),
            names.wf(),
            all == rows::three_rows(v@),
            set == names@.to_set(),
            rows::three_rows(r@) == rows_where(all.take(i as int), 0, set),
        decreases v@.len() - i,
    {
        let ghost row = all[i as int];
        let ghost r0 = r@;
        proof {
            assert(all.take(i + 1).drop_last() =~= all.take(i as int));
            assert(all.take(i + 1).last() == row);
        }
        let key = v[i].0.text();
        if has(names, key) {
            let x = (A::of(v[i].0.text().clone()), B::of(v[i].1.text().clone()),
                C::of(v[i].2.text().clone()));
            r.push(x);
            proof {
                assert(rows::three_rows(r@).last() =~= row);
                assert(rows::three_rows(r@) =~= rows::three_rows(r0).push(row));
            }
        }
        i += 1;
    }
    proof {
        assert(all.take(i as int) =~= all);
    }
    r
}

fn keep_four<A: Symbol, B: Symbol, C: Symbol,
    D: Symbol>(v: &Vec<(A, B, C, D)>, names: &Names) -> (r: Vec<(A, B, C, D)>)
    requires
        names.wf(),
    ensures
        rows::four_rows(r@) == rows_where(rows::four_rows(v@), 0, names@.to_set()),
{
    let ghost all = rows::four_rows(v@);
    let ghost set = names@.to_set();
    let mut r: Vec<(A, B, C, D)> = Vec::new();
    let mut i: usize = 0;
    proof {
        assert(rows::four_rows(r@) =~= rows_where(all.take(0), 0, set));
    }
    while i < v.len()
        invariant
            i <= v@.len(),
            names.wf(),
            all == rows::four_rows(v@),
            set == names@.to_set(),
            rows::four_rows(r@) == rows_where(all.take(i as int), 0, set),
        decreases v@.len() - i,
    {
        let ghost row = all[i as int];
        let ghost r0 = r@;
        proof {
            assert(all.take(i + 1).drop_last() =~= all.take(i as int));
            assert(all.take(i + 1).last() == row);
        }
        let key = v[i].0.text();
        if has(names, key) {
            let x = (A::of(v[i].0.text().clone()), B::of(v[i].1.text().clone()),
                C::of(v[i].2.text().clone()), D::of(v[i].3.text().clone()));
            r.push(x);
            proof {
                assert(rows::four_rows(r@).last() =~= row);
                assert(rows::four_rows(r@) =~= rows::four_rows(r0).push(row));
            }
        }
        i += 1;
    }
    proof {
        assert(all.take(i as int) =~= all);
    }
    r
}

fn keep_indexed<A: Symbol,
    C: Symbol>(v: &Vec<(A, usize, C)>, names: &Names) -> (r: Vec<(A, usize, C)>)
    requires
        names.wf(),
    ensures
        rows::indexed_rows(r@) == rows_where(rows::indexed_rows(v@), 0, names@.to_set()),
{
    let ghost all = rows::indexed_rows(v@);
    let ghost set = names@.to_set();
    let mut r: Vec<(A, usize, C)> = Vec::new();
    let mut i: usize = 0;
    proof {
        assert(rows::indexed_rows(r@) =~= rows_where(all.take(0), 0, set));
    }
    while i < v.len()
        invariant
            i <= v@.len(),
            names.wf(),
            all == rows::indexed_rows(v@),
            set == names@.to_set(),
            rows::indexed_rows(r@) == rows_where(all.take(i as int), 0, set),
        decreases v@.len() - i,
    {
        let ghost row = all[i as int];
        let ghost r0 = r@;
        proof {
            assert(all.take(i + 1).drop_last() =~= all.take(i as int));
            assert(all.take(i + 1).last() == row);
        }
        let key = v[i].0.text();
        if has(names, key) {
            let x = (A::of(v[i].0.text().clone()), v[i].1, C::of(v[i].2.text().clone()));
            r.push(x);
            proof {
                assert(rows::indexed_rows(r@).last() =~= row);
                assert(rows::indexed_rows(r@) =~= rows::indexed_rows(r0).push(row));
            }
        }
        i += 1;
    }
    proof {
        assert(all.take(i as int) =~= all);
    }
    r
}

fn keep_placed<A: Symbol,
    B: Symbol>(v: &Vec<(A, B, usize)>, names: &Names) -> (r: Vec<(A, B, usize)>)
    requires
        names.wf(),
    ensures
        rows::placed_rows(r@) == rows_where(rows::placed_rows(v@), 1, names@.to_set()),
{
    let ghost all = rows::placed_rows(v@);
    let ghost set = names@.to_set();
    let mut r: Vec<(A, B, usize)> = Vec::new();
    let mut i: usize = 0;
    proof {
        assert(rows::placed_rows(r@) =~= rows_where(all.take(0), 1, set));
    }
    while i < v.len()
        invariant
            i <= v@.len(),
            names.wf(),
            all == rows::placed_rows(v@),
            set == names@.to_set(),
            rows::placed_rows(r@) == rows_where(all.take(i as int), 1, set),
        decreases v@.len() - i,
    {
        let ghost row = all[i as int];
        let ghost r0 = r@;
        proof {
            assert(all.take(i + 1).drop_last() =~= all.take(i as int));
            assert(all.take(i + 1).last() == row);
        }
        let key = v[i].1.text();
        if has(names, key) {
            let x = (A::of(v[i].0.text().clone()), B::of(v[i].1.text().clone()), v[i].2);
            r.push(x);
            proof {
                assert(rows::placed_rows(r@).last() =~= row);
                assert(rows::placed_rows(r@) =~= rows::placed_rows(r0).push(row));
            }
        }
        i += 1;
    }
    proof {
        assert(all.take(i as int) =~= all);
    }
    r
}

/// Keep the `n` procedures with the most statements, and everything that mentions only
/// those. Type-level facts (`lookup`, `direct_subtype`, `alloc_type`) are kept whole:
/// dropping them would change which calls count as critical. `paths` is left empty, so
/// that a run bounds the smaller program by its own syntax.
pub fn restrict(p: &Program, n: usize) -> (r: Program)
    ensures
        cut_down(r, *p, largest(p.in_proc@, n as nat)),
{
    let procs = find_largest(&p.in_proc, n);
    let stmts = find_bodies(&p.in_proc, &procs);
    let calls = keep_two(&p.direct_call, &stmts, 0);
    let r = Program {
        procedure: keep_one(&p.procedure, &procs),
        proc_type: keep_two(&p.proc_type, &procs, 0),
        proc_sig: keep_two(&p.proc_sig, &procs, 0),
        entry: keep_one(&p.entry, &procs),
        formal: keep_indexed(&p.formal, &procs),
        ret: keep_two(&p.ret, &procs, 0),
        in_proc: keep_placed(&p.in_proc, &procs),
        alloc: keep_three(&p.alloc, &stmts),
        const_assign: keep_three(&p.const_assign, &stmts),
        mov: keep_three(&p.mov, &stmts),
        load_field: keep_four(&p.load_field, &stmts),
        store_field: keep_four(&p.store_field, &stmts),
        load_static: keep_four(&p.load_static, &stmts),
        store_static: keep_four(&p.store_static, &stmts),
        load_index_const: keep_four(&p.load_index_const, &stmts),
        store_index_const: keep_four(&p.store_index_const, &stmts),
        load_index_var: keep_four(&p.load_index_var, &stmts),
        store_index_var: keep_four(&p.store_index_var, &stmts),
        virtual_call: keep_three(&p.virtual_call, &stmts),
        actual_arg: keep_indexed(&p.actual_arg, &stmts),
        bind_ret: keep_two(&p.bind_ret, &stmts, 0),
        direct_call: keep_two(&calls, &procs, 1),
        alloc_type: ir::copy_two(&p.alloc_type),
        direct_subtype: ir::copy_two(&p.direct_subtype),
        lookup: ir::copy_three(&p.lookup),
        paths: Vec::new(),
    };
    proof {
        assert(rows::two_rows(r.alloc_type@) =~= rows::two_rows(p.alloc_type@)) by {
            assert forall|i: int| 0 <= i < p.alloc_type@.len()
                implies rows::two_rows(r.alloc_type@)[i] == rows::two_rows(
                p.alloc_type@,
            )[i] by {
                assert(ir::two_view(r.alloc_type@[i]) == ir::two_view(p.alloc_type@[i]));
            }
        }
        assert(rows::two_rows(r.direct_subtype@) =~= rows::two_rows(p.direct_subtype@)) by {
            assert forall|i: int| 0 <= i < p.direct_subtype@.len()
                implies rows::two_rows(r.direct_subtype@)[i] == rows::two_rows(
                p.direct_subtype@,
            )[i] by {
                assert(ir::two_view(r.direct_subtype@[i]) == ir::two_view(p.direct_subtype@[i]));
            }
        }
        assert(rows::three_rows(r.lookup@) =~= rows::three_rows(p.lookup@)) by {
            assert forall|i: int| 0 <= i < p.lookup@.len()
                implies rows::three_rows(r.lookup@)[i] == rows::three_rows(
                p.lookup@,
            )[i] by {
                assert(ir::three_view(r.lookup@[i]) == ir::three_view(p.lookup@[i]));
            }
        }
    }
    r
}

} // verus!
