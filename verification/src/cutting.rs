//! What restricting a program keeps, relation by relation.
use vstd::prelude::*;

use crate::ir::{Name, Program, Symbol};
use crate::order;
use crate::restrict::{bodies, cut_down, largest, restrict, rivals, rows_where, weight};
use crate::ir::{Line, Proc, Stmt};
use crate::rows::{self, Datum};

verus! {

/// A list by the models of its entries.
pub open spec fn listed<T: View>(v: Seq<T>) -> Seq<T::V> {
    Seq::new(v.len(), |i: int| v[i]@)
}

/// The places in a procedure.
pub open spec fn places_in(v: Seq<(Name, Name, usize)>, q: Name) -> Seq<(Name, Name, usize)> {
    v.filter(|x: (Name, Name, usize)| x.1 == q)
}

/// How many statements a procedure has.
pub open spec fn size(p: Program, q: Name) -> nat {
    places_in(listed(p.in_proc@), q).len()
}

/// `a` is less than `b` as text: it ends first, or has the lesser character where they
/// part.
pub open spec fn less(a: Name, b: Name) -> bool {
    exists|k: int|
        {
            &&& 0 <= k <= a.len() && k < b.len()
            &&& #[trigger] a.take(k) == b.take(k)
            &&& k == a.len() || (a[k] as int) < (b[k] as int)
        }
}

/// The procedures that come before `q` by the number of their statements, and by name
/// where they have as many.
pub open spec fn larger(p: Program, q: Name) -> Set<Name> {
    Set::new(
        |x: Name|
            size(p, x) > 0 && (size(p, x) > size(p, q) || size(p, x) == size(p, q) && less(x, q)),
    )
}

/// One of the `n` procedures with the most statements.
pub open spec fn kept(p: Program, n: usize, q: Name) -> bool {
    size(p, q) > 0 && larger(p, q).len() < n
}

/// A statement of one of them.
pub open spec fn placed(p: Program, n: usize, s: Name) -> bool {
    exists|q: Name, l: usize| #[trigger]
        listed(p.in_proc@).contains((s, q, l)) && kept(p, n, q)
}

// ---------------------------------------------------------------------------
// Rows and entries
// ---------------------------------------------------------------------------

proof fn lemma_rows_where(a: Seq<Seq<Datum>>, col: int, names: Set<Name>)
    ensures
        rows_where(a, col, names) == a.filter(
            |row: Seq<Datum>| names.contains(row[col].text()),
        ),
    decreases a.len(),
{
    reveal(Seq::filter);
    if a.len() > 0 {
        lemma_rows_where(a.drop_last(), col, names);
    } else {
        assert(rows_where(a, col, names) =~= a);
    }
}

proof fn lemma_filter_twice(
    a: Seq<Seq<Datum>>,
    f: spec_fn(Seq<Datum>) -> bool,
    g: spec_fn(Seq<Datum>) -> bool,
)
    ensures
        a.filter(f).filter(g) == a.filter(|row: Seq<Datum>| f(row) && g(row)),
    decreases a.len(),
{
    reveal(Seq::filter);
    if a.len() > 0 {
        lemma_filter_twice(a.drop_last(), f, g);
        if f(a.last()) {
            let b = a.drop_last().filter(f).push(a.last());
            assert(b.drop_last() =~= a.drop_last().filter(f));
        }
    } else {
        assert(a.filter(f).filter(g) =~= a);
    }
}

/// Keeping the rows of some entries is keeping the entries.
proof fn lemma_kept<T: View>(
    v: Seq<T>,
    r: Seq<T>,
    row: spec_fn(T::V) -> Seq<Datum>,
    test: spec_fn(Seq<Datum>) -> bool,
    keep: spec_fn(T::V) -> bool,
)
    requires
        forall|x: T::V, y: T::V| #[trigger] row(x) == #[trigger] row(y) ==> x == y,
        forall|x: T::V| #[trigger] keep(x) <==> test(row(x)),
        Seq::new(r.len(), |i: int| row(r[i]@)) == Seq::new(v.len(), |i: int| row(v[i]@)).filter(
            test,
        ),
    ensures
        listed(r) == listed(v).filter(keep),
    decreases v.len(),
{
    reveal(Seq::filter);
    let (a, b) = (Seq::new(v.len(), |i: int| row(v[i]@)), Seq::new(r.len(), |i: int| row(r[i]@)));
    if v.len() == 0 {
        assert(b.len() == 0);
        assert(listed(r) =~= listed(v).filter(keep));
    } else {
        let w = v.drop_last();
        assert(Seq::new(w.len(), |i: int| row(w[i]@)) =~= a.drop_last());
        assert(listed(v).drop_last() =~= listed(w));
        if test(a.last()) {
            let s = r.drop_last();
            assert(b.len() > 0);
            assert(b.drop_last() =~= a.drop_last().filter(test));
            assert(Seq::new(s.len(), |i: int| row(s[i]@)) =~= b.drop_last());
            lemma_kept(w, s, row, test, keep);
            assert(b.last() == a.last());
            assert(row(r.last()@) == row(v.last()@));
            assert(keep(v.last()@));
            assert(listed(r) =~= listed(s).push(r.last()@));
        } else {
            assert(!keep(v.last()@));
            lemma_kept(w, r, row, test, keep);
        }
    }
}

proof fn lemma_one<A: Symbol>(
    v: Seq<(A,)>,
    r: Seq<(A,)>,
    test: spec_fn(Seq<Datum>) -> bool,
    keep: spec_fn((Name,)) -> bool,
)
    requires
        rows::one_rows(r) == rows::one_rows(v).filter(test),
        forall|x: (Name,)| #[trigger] keep(x) <==> test(rows::one_row(x.0)),
    ensures
        listed(r) == listed(v).filter(keep),
{
    let row = |x: (Name,)| rows::one_row(x.0);
    assert forall|x: (Name,), y: (Name,)| #[trigger] row(x) == #[trigger] row(y) implies x == y by {
        assert(row(x)[0] == row(y)[0]);
    }
    assert(Seq::new(r.len(), |i: int| row(r[i]@)) =~= rows::one_rows(r));
    assert(Seq::new(v.len(), |i: int| row(v[i]@)) =~= rows::one_rows(v));
    lemma_kept(v, r, row, test, keep);
}

proof fn lemma_two<A: Symbol, B: Symbol>(
    v: Seq<(A, B)>,
    r: Seq<(A, B)>,
    test: spec_fn(Seq<Datum>) -> bool,
    keep: spec_fn((Name, Name)) -> bool,
)
    requires
        rows::two_rows(r) == rows::two_rows(v).filter(test),
        forall|x: (Name, Name)| #[trigger] keep(x) <==> test(rows::two_row(x.0, x.1)),
    ensures
        listed(r) == listed(v).filter(keep),
{
    let row = |x: (Name, Name)| rows::two_row(x.0, x.1);
    assert forall|x: (Name, Name), y: (Name, Name)| #[trigger] row(x) == #[trigger] row(y)
        implies x == y by {
        assert(row(x)[0] == row(y)[0]);
        assert(row(x)[1] == row(y)[1]);
    }
    assert(Seq::new(r.len(), |i: int| row(r[i]@)) =~= rows::two_rows(r));
    assert(Seq::new(v.len(), |i: int| row(v[i]@)) =~= rows::two_rows(v));
    lemma_kept(v, r, row, test, keep);
}

proof fn lemma_three<A: Symbol, B: Symbol, C: Symbol>(
    v: Seq<(A, B, C)>,
    r: Seq<(A, B, C)>,
    test: spec_fn(Seq<Datum>) -> bool,
    keep: spec_fn((Name, Name, Name)) -> bool,
)
    requires
        rows::three_rows(r) == rows::three_rows(v).filter(test),
        forall|x: (Name, Name, Name)| #[trigger] keep(x) <==> test(rows::three_row(x.0, x.1, x.2)),
    ensures
        listed(r) == listed(v).filter(keep),
{
    let row = |x: (Name, Name, Name)| rows::three_row(x.0, x.1, x.2);
    assert forall|x: (Name, Name, Name),
        y: (Name, Name, Name)| #[trigger] row(x) == #[trigger] row(y) implies x == y by {
        assert(row(x)[0] == row(y)[0]);
        assert(row(x)[1] == row(y)[1]);
        assert(row(x)[2] == row(y)[2]);
    }
    assert(Seq::new(r.len(), |i: int| row(r[i]@)) =~= rows::three_rows(r));
    assert(Seq::new(v.len(), |i: int| row(v[i]@)) =~= rows::three_rows(v));
    lemma_kept(v, r, row, test, keep);
}

proof fn lemma_four<A: Symbol, B: Symbol, C: Symbol, D: Symbol>(
    v: Seq<(A, B, C, D)>,
    r: Seq<(A, B, C, D)>,
    test: spec_fn(Seq<Datum>) -> bool,
    keep: spec_fn((Name, Name, Name, Name)) -> bool,
)
    requires
        rows::four_rows(r) == rows::four_rows(v).filter(test),
        forall|x: (Name, Name, Name, Name)| #[trigger] keep(x)
            <==> test(rows::four_row(x.0, x.1, x.2, x.3)),
    ensures
        listed(r) == listed(v).filter(keep),
{
    let row = |x: (Name, Name, Name, Name)| rows::four_row(x.0, x.1, x.2, x.3);
    assert forall|x: (Name, Name, Name, Name),
        y: (Name, Name, Name, Name)| #[trigger] row(x) == #[trigger] row(y) implies x == y by {
        assert(row(x)[0] == row(y)[0]);
        assert(row(x)[1] == row(y)[1]);
        assert(row(x)[2] == row(y)[2]);
        assert(row(x)[3] == row(y)[3]);
    }
    assert(Seq::new(r.len(), |i: int| row(r[i]@)) =~= rows::four_rows(r));
    assert(Seq::new(v.len(), |i: int| row(v[i]@)) =~= rows::four_rows(v));
    lemma_kept(v, r, row, test, keep);
}

proof fn lemma_indexed<A: Symbol, C: Symbol>(
    v: Seq<(A, usize, C)>,
    r: Seq<(A, usize, C)>,
    test: spec_fn(Seq<Datum>) -> bool,
    keep: spec_fn((Name, usize, Name)) -> bool,
)
    requires
        rows::indexed_rows(r) == rows::indexed_rows(v).filter(test),
        forall|x: (Name, usize, Name)| #[trigger] keep(x)
            <==> test(rows::indexed_row(x.0, x.1, x.2)),
    ensures
        listed(r) == listed(v).filter(keep),
{
    let row = |x: (Name, usize, Name)| rows::indexed_row(x.0, x.1, x.2);
    assert forall|x: (Name, usize, Name),
        y: (Name, usize, Name)| #[trigger] row(x) == #[trigger] row(y) implies x == y by {
        assert(row(x)[0] == row(y)[0]);
        assert(row(x)[1] == row(y)[1]);
        assert(row(x)[2] == row(y)[2]);
    }
    assert(Seq::new(r.len(), |i: int| row(r[i]@)) =~= rows::indexed_rows(r));
    assert(Seq::new(v.len(), |i: int| row(v[i]@)) =~= rows::indexed_rows(v));
    lemma_kept(v, r, row, test, keep);
}

proof fn lemma_placed<A: Symbol, B: Symbol>(
    v: Seq<(A, B, usize)>,
    r: Seq<(A, B, usize)>,
    test: spec_fn(Seq<Datum>) -> bool,
    keep: spec_fn((Name, Name, usize)) -> bool,
)
    requires
        rows::placed_rows(r) == rows::placed_rows(v).filter(test),
        forall|x: (Name, Name, usize)| #[trigger] keep(x)
            <==> test(rows::placed_row(x.0, x.1, x.2)),
    ensures
        listed(r) == listed(v).filter(keep),
{
    let row = |x: (Name, Name, usize)| rows::placed_row(x.0, x.1, x.2);
    assert forall|x: (Name, Name, usize),
        y: (Name, Name, usize)| #[trigger] row(x) == #[trigger] row(y) implies x == y by {
        assert(row(x)[0] == row(y)[0]);
        assert(row(x)[1] == row(y)[1]);
        assert(row(x)[2] == row(y)[2]);
    }
    assert(Seq::new(r.len(), |i: int| row(r[i]@)) =~= rows::placed_rows(r));
    assert(Seq::new(v.len(), |i: int| row(v[i]@)) =~= rows::placed_rows(v));
    lemma_kept(v, r, row, test, keep);
}

// ---------------------------------------------------------------------------
// Which procedures
// ---------------------------------------------------------------------------

proof fn lemma_weight(v: Seq<(Stmt, Proc, Line)>, q: Name)
    ensures
        weight(v, q) == places_in(listed(v), q).len(),
    decreases v.len(),
{
    reveal(Seq::filter);
    if v.len() > 0 {
        lemma_weight(v.drop_last(), q);
        assert(listed(v).drop_last() =~= listed(v.drop_last()));
    }
}

/// A procedure with a place has statements.
proof fn lemma_place(v: Seq<(Name, Name, usize)>, q: Name, i: int)
    requires
        0 <= i < v.len(),
        v[i].1 == q,
    ensures
        places_in(v, q).len() > 0,
    decreases v.len(),
{
    reveal(Seq::filter);
    if i < v.len() - 1 {
        assert(v.drop_last()[i] == v[i]);
        lemma_place(v.drop_last(), q, i);
    }
}

proof fn lemma_char(c: char)
    ensures
        order::char_rank(c) == c as int + 1,
        c as int >= 0,
{
}

proof fn lemma_less(a: Name, b: Name)
    ensures
        less(a, b) <==> order::before(order::name_rank(a), order::name_rank(b)),
{
    let (x, y) = (order::name_rank(a), order::name_rank(b));
    assert forall|i: int| 0 <= i < a.len() implies #[trigger] x[i] == a[i] as int + 1 by {
        lemma_char(a[i]);
    }
    assert forall|i: int| 0 <= i < b.len() implies #[trigger] y[i] == b[i] as int + 1 by {
        lemma_char(b[i]);
    }
    assert(x[a.len() as int] == 0 && y[b.len() as int] == 0);
    if less(a, b) {
        let k = choose|k: int|
            {
                &&& 0 <= k <= a.len() && k < b.len()
                &&& #[trigger] a.take(k) == b.take(k)
                &&& k == a.len() || (a[k] as int) < (b[k] as int)
            };
        assert forall|i: int| 0 <= i < k implies #[trigger] x[i] == y[i] by {
            assert(a.take(k)[i] == a[i] && b.take(k)[i] == b[i]);
        }
        assert(y[k] == b[k] as int + 1);
        if k < a.len() {
            assert(x[k] == a[k] as int + 1);
        } else {
            assert(x[k] == 0);
        }
        lemma_char(b[k]);
        assert(x[k] < y[k]);
        assert(order::parts_at(x, y, k));
    }
    if order::before(x, y) {
        let k = choose|k: int| order::parts_at(x, y, k);
        if k == x.len() {
            let e = a.len() as int;
            assert(x[e] == y[e]);
            assert(y[e] == b[e] as int + 1);
            lemma_char(b[e]);
            assert(false);
        }
        assert(x[k] < y[k]);
        if k == b.len() {
            assert(y[k] == 0);
        }
        assert(k < b.len());
        if k < a.len() {
            assert(x[k] == a[k] as int + 1 && y[k] == b[k] as int + 1);
        }
        assert(a.take(k) =~= b.take(k)) by {
            assert forall|i: int| 0 <= i < k implies a[i] == b[i] by {
                assert(x[i] == y[i]);
                assert(x[i] == a[i] as int + 1 && y[i] == b[i] as int + 1);
            }
        }
    }
}

/// No text is less than itself.
proof fn lemma_less_irreflexive(a: Name)
    ensures
        !less(a, a),
{
    lemma_less(a, a);
    if less(a, a) {
        order::lemma_before_asymmetric(order::name_rank(a), order::name_rank(a));
    }
}

proof fn lemma_largest(p: Program, n: usize, q: Name)
    ensures
        largest(p.in_proc@, n as nat).contains(q) <==> kept(p, n, q),
{
    let v = p.in_proc@;
    lemma_weight(v, q);
    assert forall|x: Name| rivals(v, q).contains(x) <==> larger(p, q).contains(x) by {
        lemma_weight(v, x);
        lemma_less(x, q);
    }
    assert(rivals(v, q) =~= larger(p, q));
}

proof fn lemma_bodies(p: Program, n: usize, s: Name)
    ensures
        bodies(p.in_proc@, largest(p.in_proc@, n as nat)).contains(s) <==> placed(p, n, s),
{
    let v = p.in_proc@;
    let set = largest(v, n as nat);
    if bodies(v, set).contains(s) {
        let i = choose|i: int|
            0 <= i < v.len() && (#[trigger] v[i]).0@ == s && set.contains(v[i].1@);
        lemma_largest(p, n, v[i].1@);
        assert(listed(v)[i] == (s, v[i].1@, v[i].2));
        assert(listed(v).contains((s, v[i].1@, v[i].2)));
    }
    if placed(p, n, s) {
        let (q, l) = choose|q: Name, l: usize| #[trigger]
            listed(v).contains((s, q, l)) && kept(p, n, q);
        lemma_largest(p, n, q);
        let i = choose|i: int| 0 <= i < listed(v).len() && listed(v)[i] == (s, q, l);
        assert(v[i].0@ == s && set.contains(v[i].1@));
    }
}

// ---------------------------------------------------------------------------
// Laws
// ---------------------------------------------------------------------------

/// Restricting keeps, in their order, the facts of the `n` procedures with the most
/// statements: what is said of such a procedure, what is said of a statement of one, a
/// direct call where both the statement and the callee are kept, and every fact about
/// types. It keeps nothing else.
pub proof fn law_restricting_keeps_what_it_should(p: &Program, n: usize, r: Program)
    requires
        call_ensures(restrict, (p, n), r),
    ensures
        listed(r.procedure@) == listed(p.procedure@).filter(|x: (Name,)| kept(*p, n, x.0)),
        listed(r.proc_type@) == listed(p.proc_type@).filter(|x: (Name, Name)| kept(*p, n, x.0)),
        listed(r.proc_sig@) == listed(p.proc_sig@).filter(|x: (Name, Name)| kept(*p, n, x.0)),
        listed(r.entry@) == listed(p.entry@).filter(|x: (Name,)| kept(*p, n, x.0)),
        listed(r.formal@) == listed(p.formal@).filter(|x: (Name, usize, Name)| kept(*p, n, x.0)),
        listed(r.ret@) == listed(p.ret@).filter(|x: (Name, Name)| kept(*p, n, x.0)),
        listed(r.in_proc@) == listed(p.in_proc@).filter(|x: (Name, Name, usize)| kept(*p, n, x.1)),
        listed(r.alloc@) == listed(p.alloc@).filter(|x: (Name, Name, Name)| placed(*p, n, x.0)),
        listed(r.const_assign@) == listed(p.const_assign@).filter(|x: (Name, Name, Name)| placed(*p,
            n, x.0)),
        listed(r.mov@) == listed(p.mov@).filter(|x: (Name, Name, Name)| placed(*p, n, x.0)),
        listed(r.load_field@) == listed(p.load_field@).filter(|x: (Name, Name, Name,
            Name)| placed(*p, n, x.0)),
        listed(r.store_field@) == listed(p.store_field@).filter(|x: (Name, Name, Name,
            Name)| placed(*p, n, x.0)),
        listed(r.load_static@) == listed(p.load_static@).filter(|x: (Name, Name, Name,
            Name)| placed(*p, n, x.0)),
        listed(r.store_static@) == listed(p.store_static@).filter(|x: (Name, Name, Name,
            Name)| placed(*p, n, x.0)),
        listed(r.load_index_const@)
            == listed(p.load_index_const@).filter(|x: (Name, Name, Name, Name)| placed(*p, n, x.0)),
        listed(r.store_index_const@)
            == listed(p.store_index_const@).filter(|x: (Name, Name, Name, Name)| placed(*p, n,
            x.0)),
        listed(r.load_index_var@)
            == listed(p.load_index_var@).filter(|x: (Name, Name, Name, Name)| placed(*p, n, x.0)),
        listed(r.store_index_var@)
            == listed(p.store_index_var@).filter(|x: (Name, Name, Name, Name)| placed(*p, n, x.0)),
        listed(r.virtual_call@) == listed(p.virtual_call@).filter(|x: (Name, Name, Name)| placed(*p,
            n, x.0)),
        listed(r.actual_arg@) == listed(p.actual_arg@).filter(|x: (Name, usize, Name)| placed(*p, n,
            x.0)),
        listed(r.bind_ret@) == listed(p.bind_ret@).filter(|x: (Name, Name)| placed(*p, n, x.0)),
        listed(r.direct_call@) == listed(p.direct_call@).filter(
            |x: (Name, Name)| placed(*p, n, x.0) && kept(*p, n, x.1),
        ),
        listed(r.alloc_type@) == listed(p.alloc_type@),
        listed(r.direct_subtype@) == listed(p.direct_subtype@),
        listed(r.lookup@) == listed(p.lookup@),
        r.paths@.len() == 0,
{
    let procs = largest(p.in_proc@, n as nat);
    let stmts = bodies(p.in_proc@, procs);
    assert(cut_down(r, *p, procs));
    assert forall|q: Name| #[trigger] procs.contains(q) <==> kept(*p, n, q) by {
        lemma_largest(*p, n, q);
    }
    assert forall|s: Name| #[trigger] stmts.contains(s) <==> placed(*p, n, s) by {
        lemma_bodies(*p, n, s);
    }
    lemma_rows_where(rows::one_rows(p.procedure@), 0, procs);
    lemma_one(
        p.procedure@,
        r.procedure@,
        |row: Seq<Datum>| procs.contains(row[0].text()),
        |x: (Name,)| kept(*p, n, x.0),
    );
    lemma_rows_where(rows::two_rows(p.proc_type@), 0, procs);
    lemma_two(
        p.proc_type@,
        r.proc_type@,
        |row: Seq<Datum>| procs.contains(row[0].text()),
        |x: (Name, Name)| kept(*p, n, x.0),
    );
    lemma_rows_where(rows::two_rows(p.proc_sig@), 0, procs);
    lemma_two(
        p.proc_sig@,
        r.proc_sig@,
        |row: Seq<Datum>| procs.contains(row[0].text()),
        |x: (Name, Name)| kept(*p, n, x.0),
    );
    lemma_rows_where(rows::one_rows(p.entry@), 0, procs);
    lemma_one(
        p.entry@,
        r.entry@,
        |row: Seq<Datum>| procs.contains(row[0].text()),
        |x: (Name,)| kept(*p, n, x.0),
    );
    lemma_rows_where(rows::indexed_rows(p.formal@), 0, procs);
    lemma_indexed(
        p.formal@,
        r.formal@,
        |row: Seq<Datum>| procs.contains(row[0].text()),
        |x: (Name, usize, Name)| kept(*p, n, x.0),
    );
    lemma_rows_where(rows::two_rows(p.ret@), 0, procs);
    lemma_two(
        p.ret@,
        r.ret@,
        |row: Seq<Datum>| procs.contains(row[0].text()),
        |x: (Name, Name)| kept(*p, n, x.0),
    );
    lemma_rows_where(rows::placed_rows(p.in_proc@), 1, procs);
    lemma_placed(
        p.in_proc@,
        r.in_proc@,
        |row: Seq<Datum>| procs.contains(row[1].text()),
        |x: (Name, Name, usize)| kept(*p, n, x.1),
    );
    lemma_rows_where(rows::three_rows(p.alloc@), 0, stmts);
    lemma_three(
        p.alloc@,
        r.alloc@,
        |row: Seq<Datum>| stmts.contains(row[0].text()),
        |x: (Name, Name, Name)| placed(*p, n, x.0),
    );
    lemma_rows_where(rows::three_rows(p.const_assign@), 0, stmts);
    lemma_three(
        p.const_assign@,
        r.const_assign@,
        |row: Seq<Datum>| stmts.contains(row[0].text()),
        |x: (Name, Name, Name)| placed(*p, n, x.0),
    );
    lemma_rows_where(rows::three_rows(p.mov@), 0, stmts);
    lemma_three(
        p.mov@,
        r.mov@,
        |row: Seq<Datum>| stmts.contains(row[0].text()),
        |x: (Name, Name, Name)| placed(*p, n, x.0),
    );
    lemma_rows_where(rows::four_rows(p.load_field@), 0, stmts);
    lemma_four(
        p.load_field@,
        r.load_field@,
        |row: Seq<Datum>| stmts.contains(row[0].text()),
        |x: (Name, Name, Name, Name)| placed(*p, n, x.0),
    );
    lemma_rows_where(rows::four_rows(p.store_field@), 0, stmts);
    lemma_four(
        p.store_field@,
        r.store_field@,
        |row: Seq<Datum>| stmts.contains(row[0].text()),
        |x: (Name, Name, Name, Name)| placed(*p, n, x.0),
    );
    lemma_rows_where(rows::four_rows(p.load_static@), 0, stmts);
    lemma_four(
        p.load_static@,
        r.load_static@,
        |row: Seq<Datum>| stmts.contains(row[0].text()),
        |x: (Name, Name, Name, Name)| placed(*p, n, x.0),
    );
    lemma_rows_where(rows::four_rows(p.store_static@), 0, stmts);
    lemma_four(
        p.store_static@,
        r.store_static@,
        |row: Seq<Datum>| stmts.contains(row[0].text()),
        |x: (Name, Name, Name, Name)| placed(*p, n, x.0),
    );
    lemma_rows_where(rows::four_rows(p.load_index_const@), 0, stmts);
    lemma_four(
        p.load_index_const@,
        r.load_index_const@,
        |row: Seq<Datum>| stmts.contains(row[0].text()),
        |x: (Name, Name, Name, Name)| placed(*p, n, x.0),
    );
    lemma_rows_where(rows::four_rows(p.store_index_const@), 0, stmts);
    lemma_four(
        p.store_index_const@,
        r.store_index_const@,
        |row: Seq<Datum>| stmts.contains(row[0].text()),
        |x: (Name, Name, Name, Name)| placed(*p, n, x.0),
    );
    lemma_rows_where(rows::four_rows(p.load_index_var@), 0, stmts);
    lemma_four(
        p.load_index_var@,
        r.load_index_var@,
        |row: Seq<Datum>| stmts.contains(row[0].text()),
        |x: (Name, Name, Name, Name)| placed(*p, n, x.0),
    );
    lemma_rows_where(rows::four_rows(p.store_index_var@), 0, stmts);
    lemma_four(
        p.store_index_var@,
        r.store_index_var@,
        |row: Seq<Datum>| stmts.contains(row[0].text()),
        |x: (Name, Name, Name, Name)| placed(*p, n, x.0),
    );
    lemma_rows_where(rows::three_rows(p.virtual_call@), 0, stmts);
    lemma_three(
        p.virtual_call@,
        r.virtual_call@,
        |row: Seq<Datum>| stmts.contains(row[0].text()),
        |x: (Name, Name, Name)| placed(*p, n, x.0),
    );
    lemma_rows_where(rows::indexed_rows(p.actual_arg@), 0, stmts);
    lemma_indexed(
        p.actual_arg@,
        r.actual_arg@,
        |row: Seq<Datum>| stmts.contains(row[0].text()),
        |x: (Name, usize, Name)| placed(*p, n, x.0),
    );
    lemma_rows_where(rows::two_rows(p.bind_ret@), 0, stmts);
    lemma_two(
        p.bind_ret@,
        r.bind_ret@,
        |row: Seq<Datum>| stmts.contains(row[0].text()),
        |x: (Name, Name)| placed(*p, n, x.0),
    );
    let (f, g) = (
        |row: Seq<Datum>| stmts.contains(row[0].text()),
        |row: Seq<Datum>| procs.contains(row[1].text()),
    );
    let a = rows::two_rows(p.direct_call@);
    lemma_rows_where(a, 0, stmts);
    lemma_rows_where(a.filter(f), 1, procs);
    lemma_filter_twice(a, f, g);
    lemma_two(
        p.direct_call@,
        r.direct_call@,
        |row: Seq<Datum>| f(row) && g(row),
        |x: (Name, Name)| placed(*p, n, x.0) && kept(*p, n, x.1),
    );
    lemma_same_two(p.alloc_type@, r.alloc_type@);
    lemma_same_two(p.direct_subtype@, r.direct_subtype@);
    lemma_same_three(p.lookup@, r.lookup@);
}

proof fn lemma_same_two<A: Symbol, B: Symbol>(v: Seq<(A, B)>, r: Seq<(A, B)>)
    requires
        rows::two_rows(r) == rows::two_rows(v),
    ensures
        listed(r) == listed(v),
{
    let (a, b) = (rows::two_rows(r), rows::two_rows(v));
    assert(a.len() == b.len());
    assert forall|i: int| 0 <= i < v.len() implies r[i]@ == v[i]@ by {
        assert(a[i][0] == b[i][0] && a[i][1] == b[i][1]);
    }
    assert(listed(r) =~= listed(v));
}

proof fn lemma_same_three<A: Symbol, B: Symbol, C: Symbol>(v: Seq<(A, B, C)>, r: Seq<(A, B, C)>)
    requires
        rows::three_rows(r) == rows::three_rows(v),
    ensures
        listed(r) == listed(v),
{
    let (a, b) = (rows::three_rows(r), rows::three_rows(v));
    assert(a.len() == b.len());
    assert forall|i: int| 0 <= i < v.len() implies r[i]@ == v[i]@ by {
        assert(a[i][0] == b[i][0] && a[i][1] == b[i][1] && a[i][2] == b[i][2]);
    }
    assert(listed(r) =~= listed(v));
}

/// Restricting to at least as many procedures as have statements keeps each of them, and
/// with it every statement.
pub proof fn law_a_wide_restriction_keeps_every_statement(p: Program, n: usize, s: Name, q: Name)
    requires
        Set::new(|x: Name| size(p, x) > 0).finite(),
        Set::new(|x: Name| size(p, x) > 0).len() <= n,
    ensures
        size(p, q) > 0 ==> kept(p, n, q),
        (exists|t: Name, l: usize| listed(p.in_proc@).contains((s, t, l))) ==> placed(p, n, s),
{
    let all = Set::new(|x: Name| size(p, x) > 0);
    assert forall|t: Name| size(p, t) > 0 implies kept(p, n, t) by {
        let few = larger(p, t);
        lemma_less_irreflexive(t);
        assert(few.subset_of(all.remove(t)));
        vstd::set_lib::lemma_len_subset(few, all.remove(t));
        assert(all.contains(t));
    }
    if exists|t: Name, l: usize| listed(p.in_proc@).contains((s, t, l)) {
        let (t, l) = choose|t: Name, l: usize| listed(p.in_proc@).contains((s, t, l));
        let a = listed(p.in_proc@);
        let i = choose|i: int| 0 <= i < a.len() && a[i] == (s, t, l);
        lemma_place(a, t, i);
        assert(size(p, t) > 0);
        assert(listed(p.in_proc@).contains((s, t, l)) && kept(p, n, t));
    }
}

} // verus!
