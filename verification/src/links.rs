//! A program's links and definitions over numbers.
use vstd::prelude::*;

use crate::access_path::Step;
use crate::codes::{initial, step_of, step_ok, Names};
use crate::facts::{
    four_ok, four_row, lemma_find_four, lemma_find_three, lemma_find_two, means_four, means_three,
    three_ok, three_row, two_ok, Facts,
};
use crate::ir::{Edb, Field, Line, Name, Proc, Program, Stmt, Symbol};
use crate::path_bound::{decidable, defines, indexes, link, place, stmt_defines, stmt_link};
use crate::roster::pair_row;
use crate::table::Table;

verus! {

// ---------------------------------------------------------------------------
// Where statements stand
// ---------------------------------------------------------------------------

/// For the number of a statement, the procedure and the line it stands at.
pub struct Seats {
    pub at: Vec<Option<(usize, usize)>>,
}

impl Seats {
    pub open spec fn seat(&self, s: usize) -> Option<(usize, usize)> {
        if s < self.at@.len() {
            self.at@[s as int]
        } else {
            None
        }
    }

    /// The seats are the places that the list names.
    pub open spec fn ok(&self, ns: Seq<Name>, v: Seq<(Stmt, Proc, Line)>) -> bool {
        &&& self.at@.len() <= ns.len()
        &&& forall|s: usize|
            s < ns.len() ==> match #[trigger] self.seat(s) {
                Some((p, l)) => p < ns.len() && place(v, ns[s as int]) == Some((ns[p as int], l)),
                None => place(v, ns[s as int]) is None,
            }
        &&& forall|n: Name| #[trigger] place(v, n) is Some ==> ns.contains(n)
    }

    /// New names do not disturb the seats.
    pub proof fn lemma_grow(&self, a: Seq<Name>, b: Seq<Name>, v: Seq<(Stmt, Proc, Line)>)
        requires
            self.ok(a, v),
            initial(a, b),
            b.no_duplicates(),
        ensures
            self.ok(b, v),
    {
        assert forall|s: usize| s < b.len() implies match #[trigger] self.seat(s) {
            Some((p, l)) => p < b.len() && place(v, b[s as int]) == Some((b[p as int], l)),
            None => place(v, b[s as int]) is None,
        } by {
            if s < a.len() {
                assert(b[s as int] == a[s as int]);
                if let Some((p, l)) = self.seat(s) {
                    assert(b[p as int] == a[p as int]);
                }
            } else if a.contains(b[s as int]) {
                let z = choose|z: int| 0 <= z < a.len() && a[z] == b[s as int];
                assert(b[z] == b[s as int]);
            }
        }
        assert forall|n: Name| #[trigger] place(v, n) is Some implies b.contains(n) by {
            let z = choose|z: int| 0 <= z < a.len() && a[z] == n;
            assert(b[z] == n);
        }
    }

    pub fn get(&self, s: usize) -> (r: Option<(usize, usize)>)
        ensures
            r == self.seat(s),
    {
        if s < self.at.len() {
            self.at[s]
        } else {
            None
        }
    }

    pub fn of_list(ns: &mut Names, v: &Vec<(Stmt, Proc, Line)>) -> (r: Self)
        requires
            old(ns).wf(),
        ensures
            final(ns).wf(),
            initial(old(ns)@, final(ns)@),
            r.ok(final(ns)@, v@),
    {
        let mut r = Seats { at: Vec::new() };
        let mut i: usize = 0;
        while i < v.len()
            invariant
                i <= v@.len(),
                ns.wf(),
                initial(old(ns)@, ns@),
                r.ok(ns@, v@.take(i as int)),
            decreases v@.len() - i,
        {
            let ghost n0 = ns@;
            let s: usize = ns.number(v[i].0.text());
            let ghost n1 = ns@;
            let p: usize = ns.number(v[i].1.text());
            let ghost seats = r;
            while r.at.len() <= s
                invariant
                    s < ns@.len(),
                    seats.at@.len() <= r.at@.len() <= ns@.len(),
                    forall|j: int| 0 <= j < seats.at@.len() ==> r.at@[j] == seats.at@[j],
                    forall|j: int|
                        seats.at@.len() <= j < r.at@.len() ==> r.at@[j] == None::<(usize, usize)>,
                decreases s + 1 - r.at@.len(),
            {
                r.at.push(None);
            }
            let l: usize = v[i].2;
            let ghost padded = r;
            r.at.set(s, Some((p, l)));
            proof {
                ns.lemma_distinct();
                let w = v@.take(i + 1);
                assert(w.drop_last() =~= v@.take(i as int));
                assert(w.last() == v@[i as int]);
                assert(initial(n0, ns@));
                assert(ns@[s as int] == v@[i as int].0@);
                assert forall|q: usize| q < ns@.len() implies match #[trigger] r.seat(q) {
                    Some((p, l)) => p < ns@.len() && place(w, ns@[q as int]) == Some(
                        (ns@[p as int], l),
                    ),
                    None => place(w, ns@[q as int]) is None,
                } by {
                    if q != s {
                        assert(ns@[q as int] != ns@[s as int]);
                        assert(place(w, ns@[q as int]) == place(v@.take(i as int), ns@[q as int]));
                        assert(r.seat(q) == seats.seat(q));
                        if q < n0.len() {
                            assert(ns@[q as int] == n0[q as int]);
                            if let Some((p, l)) = seats.seat(q) {
                                assert(ns@[p as int] == n0[p as int]);
                            }
                        } else {
                            if n0.contains(ns@[q as int]) {
                                let z = choose|z: int| 0 <= z < n0.len() && n0[z] == ns@[q as int];
                                assert(ns@[z] == ns@[q as int]);
                            }
                            assert(place(v@.take(i as int), ns@[q as int]) is None);
                            assert(seats.seat(q) is None);
                        }
                    }
                }
                assert forall|n: Name| #[trigger] place(w, n) is Some implies ns@.contains(n) by {
                    if n == w.last().0@ {
                        assert(ns@[s as int] == n);
                    } else {
                        assert(place(w, n) == place(v@.take(i as int), n));
                        assert(n0.contains(n));
                        let z = choose|z: int| 0 <= z < n0.len() && n0[z] == n;
                        assert(ns@[z] == n);
                    }
                }
            }
            i += 1;
        }
        proof {
            assert(v@.take(i as int) =~= v@);
        }
        r
    }
}

// ---------------------------------------------------------------------------
// Links
// ---------------------------------------------------------------------------

/// A link over numbers. A move has kind 0, one accessor has kind 1, and kind 2
/// stands for every accessor that a variable index can be decided to.
#[derive(Clone, Copy)]
pub struct Link {
    pub p: usize,
    pub line: usize,
    pub src: usize,
    pub dst: usize,
    pub kind: usize,
    pub tag: usize,
    pub n: usize,
}

impl Link {
    pub open spec fn ok(&self, ns: Seq<Name>) -> bool {
        &&& self.p < ns.len()
        &&& self.src < ns.len()
        &&& self.dst < ns.len()
        &&& self.kind == 1 ==> step_ok(ns, self.tag, self.n)
    }

    /// The accessors that the link puts in front; `None` for a move.
    pub open spec fn puts(&self, ns: Seq<Name>, e: Edb, acc: Option<Step>) -> bool {
        if self.kind == 0 {
            acc is None
        } else if self.kind == 1 {
            acc == Some(step_of(ns, self.tag, self.n))
        } else {
            acc is Some && decidable(e, acc->0)
        }
    }
}

/// The links are the program's.
pub open spec fn links_ok(links: Seq<Link>, ns: Seq<Name>, prog: Program) -> bool {
    &&& forall|i: int| 0 <= i < links.len() ==> (#[trigger] links[i]).ok(ns)
    &&& forall|i: int, acc: Option<Step>|
        0 <= i < links.len() && #[trigger] links[i].puts(ns, prog@, acc) ==> link(
            prog,
            ns[links[i].p as int],
            links[i].line,
            ns[links[i].src as int],
            ns[links[i].dst as int],
            acc,
        )
    &&& forall|p: Name, l: Line, src: Name, dst: Name, acc: Option<Step>| #[trigger]
        link(prog, p, l, src, dst, acc) ==> has_link(links, ns, prog@, p, l, src, dst, acc)
}

pub open spec fn stands_for(k: Link, ns: Seq<Name>, p: Name, l: Line, src: Name, dst: Name)
    -> bool {
    &&& ns[k.p as int] == p
    &&& k.line == l
    &&& ns[k.src as int] == src
    &&& ns[k.dst as int] == dst
}

/// How the columns of a table make a link.
#[derive(Clone, Copy)]
pub struct Pattern {
    pub src: usize,
    pub dst: usize,
    pub kind: usize,
    pub tag: usize,
    pub n: usize,
}

pub open spec fn link_of(row: Seq<usize>, seat: (usize, usize), f: Pattern) -> Link {
    Link {
        p: seat.0,
        line: seat.1,
        src: row[f.src as int],
        dst: row[f.dst as int],
        kind: f.kind,
        tag: f.tag,
        n: if f.kind == 1 {
            row[f.n as int]
        } else {
            0
        },
    }
}

/// Some row of `t` gives the link `k`.
pub open spec fn from_row(k: Link, t: Seq<Seq<usize>>, seats: Seats, f: Pattern) -> bool {
    exists|j: int|
        0 <= j < t.len() && seats.seat((#[trigger] t[j])[0]) is Some && k == link_of(
            t[j],
            seats.seat(t[j][0])->0,
            f,
        )
}

/// Each seated row of `t` has its link, and there is no other.
pub open spec fn adds(
    a: Seq<Link>,
    b: Seq<Link>,
    t: Seq<Seq<usize>>,
    seats: Seats,
    f: Pattern,
) -> bool {
    &&& a.len() <= b.len()
    &&& forall|i: int| 0 <= i < a.len() ==> #[trigger] b[i] == a[i]
    &&& forall|i: int| a.len() <= i < b.len() ==> from_row(#[trigger] b[i], t, seats, f)
    &&& forall|j: int|
        0 <= j < t.len() && seats.seat((#[trigger] t[j])[0]) is Some ==> b.contains(
            link_of(t[j], seats.seat(t[j][0])->0, f),
        )
}

/// The columns that a pattern names are there, and hold numbers of names.
pub open spec fn row_ok(row: Seq<usize>, f: Pattern, ns: Seq<Name>) -> bool {
    &&& 0 < row.len() && row[0] < ns.len()
    &&& f.src < row.len() && row[f.src as int] < ns.len()
    &&& f.dst < row.len() && row[f.dst as int] < ns.len()
    &&& f.kind == 1 ==> f.n < row.len() && step_ok(ns, f.tag, row[f.n as int])
}

/// A row says what its statement says.
pub open spec fn row_fits(row: Seq<usize>, f: Pattern, ns: Seq<Name>, e: Edb) -> bool {
    &&& row_ok(row, f, ns)
    &&& forall|acc: Option<Step>| #[trigger]
        link_of(row, (0, 0), f).puts(ns, e, acc) ==> stmt_link(
            e,
            ns[row[0] as int],
            ns[row[f.src as int] as int],
            ns[row[f.dst as int] as int],
            acc,
        )
}

pub open spec fn fits(t: Seq<Seq<usize>>, f: Pattern, ns: Seq<Name>, e: Edb) -> bool {
    forall|j: int| 0 <= j < t.len() ==> row_fits(#[trigger] t[j], f, ns, e)
}

/// Some row says that statement `s` links `src` to `dst`.
pub open spec fn covers(
    t: Seq<Seq<usize>>,
    f: Pattern,
    ns: Seq<Name>,
    e: Edb,
    s: Name,
    src: Name,
    dst: Name,
    acc: Option<Step>,
) -> bool {
    exists|j: int|
        0 <= j < t.len() && ns[(#[trigger] t[j])[0] as int] == s && ns[t[j][f.src as int] as int]
            == src && ns[t[j][f.dst as int] as int] == dst && link_of(t[j], (0, 0), f).puts(
            ns,
            e,
            acc,
        )
}

fn add_links(
    links: &mut Vec<Link>,
    t: &Table,
    seats: &Seats,
    f: Pattern,
    Ghost(ns): Ghost<Seq<Name>>,
    Ghost(e): Ghost<Edb>,
)
    requires
        fits(t@, f, ns, e),
    ensures
        adds(old(links)@, final(links)@, t@, *seats, f),
{
    let ghost a = links@;
    let mut i: usize = 0;
    while i < t.len()
        invariant
            i <= t@.len(),
            fits(t@, f, ns, e),
            a.len() <= links@.len(),
            forall|z: int| 0 <= z < a.len() ==> #[trigger] links@[z] == a[z],
            forall|z: int|
                a.len() <= z < links@.len() ==> from_row(#[trigger] links@[z], t@, *seats, f),
            forall|j: int|
                0 <= j < i && seats.seat((#[trigger] t@[j])[0]) is Some ==> links@.contains(
                    link_of(t@[j], seats.seat(t@[j][0])->0, f),
                ),
        decreases t@.len() - i,
    {
        let ghost before = links@;
        proof {
            assert(row_fits(t@[i as int], f, ns, e));
        }
        match seats.get(t.at(i, 0)) {
            Some((p, line)) => {
                let n: usize = if f.kind == 1 {
                    t.at(i, f.n)
                } else {
                    0
                };
                let k = Link {
                    p,
                    line,
                    src: t.at(i, f.src),
                    dst: t.at(i, f.dst),
                    kind: f.kind,
                    tag: f.tag,
                    n,
                };
                links.push(k);
                proof {
                    assert(k == link_of(t@[i as int], seats.seat(t@[i as int][0])->0, f));
                    assert(from_row(k, t@, *seats, f));
                    assert(links@[before.len() as int] == k);
                    assert forall|x: Link| before.contains(x)
                        implies #[trigger] links@.contains(x) by {
                        let z = choose|z: int| 0 <= z < before.len() && before[z] == x;
                        assert(links@[z] == x);
                    }
                }
            },
            None => {},
        }
        i += 1;
    }
}

proof fn lemma_fits_three(t: Seq<Seq<usize>>, ns: Seq<Name>, e: Edb)
    requires
        means_three(t, ns, e.mov),
    ensures
        fits(t, Pattern { src: 1, dst: 2, kind: 0, tag: 0, n: 0 }, ns, e),
{
    let f = Pattern { src: 1, dst: 2, kind: 0, tag: 0, n: 0 };
    assert forall|j: int| 0 <= j < t.len() implies row_fits(#[trigger] t[j], f, ns, e) by {
        assert(three_ok(ns, t[j]));
        assert(e.mov.contains(three_row(ns, t[j])));
    }
}

/// A field access, or an access through a constant index.
proof fn lemma_fits_access(t: Seq<Seq<usize>>, ns: Seq<Name>, e: Edb, store: bool, tag: usize)
    requires
        tag <= 1,
        tag == 0 && !store ==> means_four(t, ns, e.load_field),
        tag == 0 && store ==> means_four(t, ns, e.store_field),
        tag == 1 && !store ==> means_four(t, ns, e.load_index_const),
        tag == 1 && store ==> means_four(t, ns, e.store_index_const),
    ensures
        fits(t, access_pattern(store, tag), ns, e),
{
    let f = access_pattern(store, tag);
    assert forall|j: int| 0 <= j < t.len() implies row_fits(#[trigger] t[j], f, ns, e) by {
        assert(four_ok(ns, t[j]));
        let x = four_row(ns, t[j]);
    }
}

pub open spec fn access_pattern(store: bool, tag: usize) -> Pattern {
    if store {
        Pattern { src: 3, dst: 1, kind: 1, tag, n: 2 }
    } else {
        Pattern { src: 1, dst: 2, kind: 1, tag, n: 3 }
    }
}

/// An access through a variable index.
proof fn lemma_fits_index(t: Seq<Seq<usize>>, ns: Seq<Name>, e: Edb, store: bool)
    requires
        !store ==> means_four(t, ns, e.load_index_var),
        store ==> means_four(t, ns, e.store_index_var),
    ensures
        fits(t, index_pattern(store), ns, e),
{
    let f = index_pattern(store);
    assert forall|j: int| 0 <= j < t.len() implies row_fits(#[trigger] t[j], f, ns, e) by {
        assert(four_ok(ns, t[j]));
        let x = four_row(ns, t[j]);
        if store {
            assert(e.store_index_var.contains((x.0, x.1, x.2, x.3)));
        } else {
            assert(e.load_index_var.contains((x.0, x.1, x.2, x.3)));
        }
        assert(indexes(
            e,
            ns[t[j][0] as int],
            ns[t[j][f.src as int] as int],
            ns[t[j][f.dst as int] as int],
        ));
    }
}

pub open spec fn index_pattern(store: bool) -> Pattern {
    if store {
        Pattern { src: 3, dst: 1, kind: 2, tag: 0, n: 0 }
    } else {
        Pattern { src: 1, dst: 2, kind: 2, tag: 0, n: 0 }
    }
}

/// Links that fitting rows give are the program's.
proof fn lemma_adds_sound(
    a: Seq<Link>,
    b: Seq<Link>,
    t: Seq<Seq<usize>>,
    seats: Seats,
    f: Pattern,
    ns: Seq<Name>,
    prog: Program,
)
    requires
        adds(a, b, t, seats, f),
        fits(t, f, ns, prog@),
        seats.ok(ns, prog.in_proc@),
        sound_links(a, ns, prog),
    ensures
        sound_links(b, ns, prog),
{
    assert forall|i: int| 0 <= i < b.len() implies sound_link(#[trigger] b[i], ns, prog) by {
        if i < a.len() {
            assert(b[i] == a[i]);
        } else {
            assert(from_row(b[i], t, seats, f));
            let j = choose|j: int|
                0 <= j < t.len() && seats.seat((#[trigger] t[j])[0]) is Some && b[i] == link_of(
                    t[j],
                    seats.seat(t[j][0])->0,
                    f,
                );
            assert(row_fits(t[j], f, ns, prog@));
            let s = ns[t[j][0] as int];
            let seat = seats.seat(t[j][0])->0;
            assert(place(prog.in_proc@, s) == Some((ns[seat.0 as int], seat.1)));
            assert forall|acc: Option<Step>| #[trigger] b[i].puts(ns, prog@, acc) implies link(
                prog,
                ns[b[i].p as int],
                b[i].line,
                ns[b[i].src as int],
                ns[b[i].dst as int],
                acc,
            ) by {
                assert(link_of(t[j], (0, 0), f).puts(ns, prog@, acc));
            }
        }
    }
}

pub open spec fn sound_link(k: Link, ns: Seq<Name>, prog: Program) -> bool {
    &&& k.ok(ns)
    &&& forall|acc: Option<Step>| #[trigger]
        k.puts(ns, prog@, acc) ==> link(
            prog,
            ns[k.p as int],
            k.line,
            ns[k.src as int],
            ns[k.dst as int],
            acc,
        )
}

pub open spec fn sound_links(links: Seq<Link>, ns: Seq<Name>, prog: Program) -> bool {
    forall|i: int| 0 <= i < links.len() ==> sound_link(#[trigger] links[i], ns, prog)
}

/// A covered link is among the links.
pub open spec fn has_link(
    links: Seq<Link>,
    ns: Seq<Name>,
    e: Edb,
    p: Name,
    l: Line,
    src: Name,
    dst: Name,
    acc: Option<Step>,
) -> bool {
    exists|i: int|
        0 <= i < links.len() && stands_for(#[trigger] links[i], ns, p, l, src, dst)
            && links[i].puts(ns, e, acc)
}

proof fn lemma_adds_keep(
    a: Seq<Link>,
    b: Seq<Link>,
    t: Seq<Seq<usize>>,
    seats: Seats,
    f: Pattern,
    ns: Seq<Name>,
    prog: Program,
    s: Name,
    p: Name,
    l: Line,
    src: Name,
    dst: Name,
    acc: Option<Step>,
)
    requires
        adds(a, b, t, seats, f),
        seats.ok(ns, prog.in_proc@),
        fits(t, f, ns, prog@),
        place(prog.in_proc@, s) == Some((p, l)),
    ensures
        has_link(a, ns, prog@, p, l, src, dst, acc) ==> has_link(
            b,
            ns,
            prog@,
            p,
            l,
            src,
            dst,
            acc,
        ),
        covers(t, f, ns, prog@, s, src, dst, acc) ==> has_link(b, ns, prog@, p, l, src, dst, acc),
{
    let e = prog@;
    if has_link(a, ns, e, p, l, src, dst, acc) {
        let i = choose|i: int|
            0 <= i < a.len() && stands_for(#[trigger] a[i], ns, p, l, src, dst) && a[i].puts(
                ns,
                e,
                acc,
            );
        assert(b[i] == a[i]);
    }
    if covers(t, f, ns, e, s, src, dst, acc) {
        let j = choose|j: int|
            0 <= j < t.len() && ns[(#[trigger] t[j])[0] as int] == s
                && ns[t[j][f.src as int] as int]
                == src && ns[t[j][f.dst as int] as int] == dst && link_of(t[j], (0, 0), f).puts(
                ns,
                e,
                acc,
            );
        assert(row_fits(t[j], f, ns, e));
        let seat = seats.seat(t[j][0]);
        assert(seat is Some);
        let k = link_of(t[j], seat->0, f);
        assert(b.contains(k));
        let i = choose|i: int| 0 <= i < b.len() && b[i] == k;
        assert(stands_for(b[i], ns, p, l, src, dst));
        assert(b[i].puts(ns, e, acc));
    }
}

/// A statement's link is in the table of its kind.
proof fn lemma_covered(facts: &Facts, ns: Seq<Name>, e: Edb, s: Name, src: Name, dst: Name,
    acc: Option<Step>)
    requires
        facts.ok(ns, e),
        stmt_link(e, s, src, dst, acc),
    ensures
        ({
            ||| covers(
                facts.mov@,
                Pattern { src: 1, dst: 2, kind: 0, tag: 0, n: 0 },
                ns,
                e,
                s,
                src,
                dst,
                acc,
            )
            ||| covers(facts.load_field@, access_pattern(false, 0), ns, e, s, src, dst, acc)
            ||| covers(facts.store_field@, access_pattern(true, 0), ns, e, s, src, dst, acc)
            ||| covers(facts.load_index_const@, access_pattern(false, 1), ns, e, s, src, dst, acc)
            ||| covers(facts.store_index_const@, access_pattern(true, 1), ns, e, s, src, dst, acc)
            ||| covers(facts.load_index_var@, index_pattern(false), ns, e, s, src, dst, acc)
            ||| covers(facts.store_index_var@, index_pattern(true), ns, e, s, src, dst, acc)
        }),
{
    match acc {
        None => {
            let j = lemma_find_three(facts.mov@, ns, e.mov, (s, src, dst));
            assert(ns[facts.mov@[j][0] as int] == s);
        },
        Some(a) => {
            if decidable(e, a) && indexes(e, s, src, dst) {
                if exists|x: Name| e.load_index_var.contains((s, src, dst, x)) {
                    let x = choose|x: Name| e.load_index_var.contains((s, src, dst, x));
                    let t = facts.load_index_var@;
                    let j = lemma_find_four(t, ns, e.load_index_var, (s, src, dst, x));
                    assert(ns[t[j][0] as int] == s);
                    assert(link_of(t[j], (0, 0), index_pattern(false)).puts(ns, e, acc));
                } else {
                    let x = choose|x: Name| e.store_index_var.contains((s, dst, x, src));
                    let t = facts.store_index_var@;
                    let j = lemma_find_four(t, ns, e.store_index_var, (s, dst, x, src));
                    assert(ns[t[j][0] as int] == s);
                    assert(link_of(t[j], (0, 0), index_pattern(true)).puts(ns, e, acc));
                }
            } else if a is Field {
                if e.load_field.contains((s, src, dst, a->Field_0)) {
                    let t = facts.load_field@;
                    let j = lemma_find_four(t, ns, e.load_field, (s, src, dst, a->Field_0));
                    assert(ns[t[j][0] as int] == s);
                    assert(link_of(t[j], (0, 0), access_pattern(false, 0)).puts(ns, e, acc));
                } else {
                    let t = facts.store_field@;
                    let j = lemma_find_four(t, ns, e.store_field, (s, dst, a->Field_0, src));
                    assert(ns[t[j][0] as int] == s);
                    assert(link_of(t[j], (0, 0), access_pattern(true, 0)).puts(ns, e, acc));
                }
            } else {
                if e.load_index_const.contains((s, src, dst, a->Index_0)) {
                    let t = facts.load_index_const@;
                    let j = lemma_find_four(t, ns, e.load_index_const, (s, src, dst, a->Index_0));
                    assert(ns[t[j][0] as int] == s);
                    assert(link_of(t[j], (0, 0), access_pattern(false, 1)).puts(ns, e, acc));
                } else {
                    let t = facts.store_index_const@;
                    let j = lemma_find_four(t, ns, e.store_index_const, (s, dst, a->Index_0, src));
                    assert(ns[t[j][0] as int] == s);
                    assert(link_of(t[j], (0, 0), access_pattern(true, 1)).puts(ns, e, acc));
                }
            }
        },
    }
}

/// The program's links.
pub fn find_links(facts: &Facts, seats: &Seats, prog: &Program, Ghost(ns): Ghost<Seq<Name>>)
    -> (r: Vec<
    Link,
>)
    requires
        facts.ok(ns, prog@),
        seats.ok(ns, prog.in_proc@),
    ensures
        links_ok(r@, ns, *prog),
{
    let ghost e = prog@;
    proof {
        lemma_fits_three(facts.mov@, ns, e);
        lemma_fits_access(facts.load_field@, ns, e, false, 0);
        lemma_fits_access(facts.store_field@, ns, e, true, 0);
        lemma_fits_access(facts.load_index_const@, ns, e, false, 1);
        lemma_fits_access(facts.store_index_const@, ns, e, true, 1);
        lemma_fits_index(facts.load_index_var@, ns, e, false);
        lemma_fits_index(facts.store_index_var@, ns, e, true);
    }
    let f0 = Pattern { src: 1, dst: 2, kind: 0, tag: 0, n: 0 };
    let f1 = Pattern { src: 1, dst: 2, kind: 1, tag: 0, n: 3 };
    let f2 = Pattern { src: 3, dst: 1, kind: 1, tag: 0, n: 2 };
    let f3 = Pattern { src: 1, dst: 2, kind: 1, tag: 1, n: 3 };
    let f4 = Pattern { src: 3, dst: 1, kind: 1, tag: 1, n: 2 };
    let f5 = Pattern { src: 1, dst: 2, kind: 2, tag: 0, n: 0 };
    let f6 = Pattern { src: 3, dst: 1, kind: 2, tag: 0, n: 0 };
    let mut r: Vec<Link> = Vec::new();
    let ghost z = r@;
    add_links(&mut r, &facts.mov, seats, f0, Ghost(ns), Ghost(e));
    let ghost r0 = r@;
    add_links(&mut r, &facts.load_field, seats, f1, Ghost(ns), Ghost(e));
    let ghost r1 = r@;
    add_links(&mut r, &facts.store_field, seats, f2, Ghost(ns), Ghost(e));
    let ghost r2 = r@;
    add_links(&mut r, &facts.load_index_const, seats, f3, Ghost(ns), Ghost(e));
    let ghost r3 = r@;
    add_links(&mut r, &facts.store_index_const, seats, f4, Ghost(ns), Ghost(e));
    let ghost r4 = r@;
    add_links(&mut r, &facts.load_index_var, seats, f5, Ghost(ns), Ghost(e));
    let ghost r5 = r@;
    add_links(&mut r, &facts.store_index_var, seats, f6, Ghost(ns), Ghost(e));
    proof {
        let links = r@;
        lemma_adds_sound(z, r0, facts.mov@, *seats, f0, ns, *prog);
        lemma_adds_sound(r0, r1, facts.load_field@, *seats, f1, ns, *prog);
        lemma_adds_sound(r1, r2, facts.store_field@, *seats, f2, ns, *prog);
        lemma_adds_sound(r2, r3, facts.load_index_const@, *seats, f3, ns, *prog);
        lemma_adds_sound(r3, r4, facts.store_index_const@, *seats, f4, ns, *prog);
        lemma_adds_sound(r4, r5, facts.load_index_var@, *seats, f5, ns, *prog);
        lemma_adds_sound(r5, links, facts.store_index_var@, *seats, f6, ns, *prog);
        assert forall|i: int| 0 <= i < links.len() implies (#[trigger] links[i]).ok(ns) by {
            assert(sound_link(links[i], ns, *prog));
        }
        assert forall|i: int, acc: Option<Step>|
            0 <= i < links.len() && #[trigger] links[i].puts(ns, prog@, acc) implies link(
            *prog,
            ns[links[i].p as int],
            links[i].line,
            ns[links[i].src as int],
            ns[links[i].dst as int],
            acc,
        ) by {
            assert(sound_link(links[i], ns, *prog));
        }
        assert forall|p: Name, l: Line, src: Name, dst: Name, acc: Option<Step>| #[trigger]
            link(*prog, p, l, src, dst, acc)
                implies has_link(links, ns, e, p, l, src, dst, acc) by {
            let s = choose|s: Name| #[trigger]
                place(prog.in_proc@, s) == Some((p, l)) && stmt_link(e, s, src, dst, acc);
            lemma_covered(facts, ns, e, s, src, dst, acc);
            lemma_adds_keep(z, r0, facts.mov@, *seats, f0, ns, *prog, s, p, l, src, dst, acc);
            lemma_adds_keep(r0, r1, facts.load_field@, *seats, f1, ns, *prog, s, p, l, src, dst,
                acc);
            lemma_adds_keep(r1, r2, facts.store_field@, *seats, f2, ns, *prog, s, p, l, src, dst,
                acc);
            lemma_adds_keep(
                r2,
                r3,
                facts.load_index_const@,
                *seats,
                f3,
                ns,
                *prog,
                s,
                p,
                l,
                src,
                dst,
                acc,
            );
            lemma_adds_keep(
                r3,
                r4,
                facts.store_index_const@,
                *seats,
                f4,
                ns,
                *prog,
                s,
                p,
                l,
                src,
                dst,
                acc,
            );
            lemma_adds_keep(
                r4,
                r5,
                facts.load_index_var@,
                *seats,
                f5,
                ns,
                *prog,
                s,
                p,
                l,
                src,
                dst,
                acc,
            );
            lemma_adds_keep(
                r5,
                links,
                facts.store_index_var@,
                *seats,
                f6,
                ns,
                *prog,
                s,
                p,
                l,
                src,
                dst,
                acc,
            );
        }
    }
    r
}

// ---------------------------------------------------------------------------
// Definitions
// ---------------------------------------------------------------------------

/// Where variables are overwritten.
pub struct Writes {
    /// A procedure and a variable.
    pub spots: Table,
    /// The number of a spot and a line.
    pub lines: Table,
}

/// Some row of `t` overwrites `v` at line `l` of `p`.
pub open spec fn row_writes(t: Seq<Seq<usize>>, seats: Seats, p: usize, v: usize, l: usize)
    -> bool {
    exists|j: int|
        0 <= j < t.len() && (#[trigger] t[j])[1] == v && seats.seat(t[j][0]) == Some((p, l))
}

impl Writes {
    pub open spec fn ok(&self) -> bool {
        &&& self.spots.wf()
        &&& self.lines.wf()
        &&& forall|i: int| 0 <= i < self.spots@.len() ==> (#[trigger] self.spots@[i]).len() == 2
        &&& forall|row: Seq<usize>| #[trigger]
            self.lines@.contains(row) ==> row.len() == 2 && row[0] < self.spots@.len()
    }

    pub open spec fn has(&self, p: usize, v: usize, l: usize) -> bool {
        exists|x: usize|
            x < self.spots@.len() && #[trigger] self.lines@.contains(pair_row(x, l))
                && self.spots@[x as int] == pair_row(p, v)
    }

    /// The number of a spot.
    pub fn spot(&mut self, p: usize, v: usize) -> (r: usize)
        requires
            old(self).ok(),
        ensures
            final(self).ok(),
            final(self).lines == old(self).lines,
            r < final(self).spots@.len(),
            final(self).spots@[r as int] == pair_row(p, v),
            old(self).spots@.len() <= final(self).spots@.len(),
            forall|i: int|
                0 <= i < old(self).spots@.len() ==> #[trigger] final(self).spots@[i]
                    == old(self).spots@[i],
            forall|p: usize, v: usize, l: usize| #[trigger]
                final(self).has(p, v, l) <==> old(self).has(p, v, l),
    {
        let ghost before = *self;
        let cells: Vec<usize> = vec![p, v];
        proof {
            assert(cells@ =~= pair_row(p, v));
        }
        let r: usize = self.spots.insert(cells);
        proof {
            assert forall|i: int| 0 <= i < before.spots@.len() implies #[trigger] self.spots@[i]
                == before.spots@[i] by {
            }
            assert forall|p: usize, v: usize, l: usize| #[trigger] self.has(p, v, l)
                <==> before.has(
                p,
                v,
                l,
            ) by {
                if self.has(p, v, l) {
                    let x = choose|x: usize|
                        x < self.spots@.len() && #[trigger] self.lines@.contains(pair_row(x, l))
                            && self.spots@[x as int] == pair_row(p, v);
                    assert(before.lines@.contains(pair_row(x, l)));
                    assert(pair_row(x, l)[0] == x);
                }
                if before.has(p, v, l) {
                    let x = choose|x: usize|
                        x < before.spots@.len() && #[trigger] before.lines@.contains(pair_row(x, l))
                            && before.spots@[x as int] == pair_row(p, v);
                    assert(self.lines@.contains(pair_row(x, l)));
                }
            }
        }
        r
    }

    /// Add what the rows of a table overwrite.
    fn add(&mut self, t: &Table, seats: &Seats)
        requires
            old(self).ok(),
            forall|j: int| 0 <= j < t@.len() ==> 1 < (#[trigger] t@[j]).len(),
        ensures
            final(self).ok(),
            forall|p: usize, v: usize, l: usize| #[trigger]
                final(self).has(p, v, l) <==> old(self).has(p, v, l) || row_writes(
                    t@,
                    *seats,
                    p,
                    v,
                    l,
                ),
    {
        let ghost start = *self;
        let mut i: usize = 0;
        while i < t.len()
            invariant
                i <= t@.len(),
                self.ok(),
                forall|j: int| 0 <= j < t@.len() ==> 1 < (#[trigger] t@[j]).len(),
                forall|p: usize, v: usize, l: usize| #[trigger]
                    self.has(p, v, l) <==> start.has(p, v, l) || row_writes(
                        t@.take(i as int),
                        *seats,
                        p,
                        v,
                        l,
                    ),
            decreases t@.len() - i,
        {
            let ghost before = *self;
            let ghost head = t@.take(i as int);
            let ghost more = t@.take(i + 1);
            proof {
                assert(more =~= head.push(t@[i as int]));
            }
            match seats.get(t.at(i, 0)) {
                Some((p, l)) => {
                    let v: usize = t.at(i, 1);
                    let x: usize = self.spot(p, v);
                    let ghost mid = *self;
                    let cells: Vec<usize> = vec![x, l];
                    proof {
                        assert(cells@ =~= pair_row(x, l));
                    }
                    self.lines.insert(cells);
                    proof {
                        assert forall|q: usize, u: usize, n: usize| #[trigger]
                            self.has(q, u, n) <==> mid.has(q, u, n)
                                || (q == p && u == v && n == l) by {
                            if self.has(q, u, n) {
                                let y = choose|y: usize|
                                    y < self.spots@.len() && #[trigger] self.lines@.contains(
                                        pair_row(y, n),
                                    ) && self.spots@[y as int] == pair_row(q, u);
                                if mid.lines@.contains(pair_row(y, n)) {
                                    assert(mid.has(q, u, n));
                                } else {
                                    assert(pair_row(y, n)[0] == x && pair_row(y, n)[1] == l);
                                    assert(pair_row(q, u)[0] == p && pair_row(q, u)[1] == v);
                                }
                            }
                            if mid.has(q, u, n) {
                                let y = choose|y: usize|
                                    y < mid.spots@.len() && #[trigger] mid.lines@.contains(
                                        pair_row(y, n),
                                    ) && mid.spots@[y as int] == pair_row(q, u);
                                assert(self.lines@.contains(pair_row(y, n)));
                            }
                            if q == p && u == v && n == l {
                                assert(self.lines@.contains(pair_row(x, l)));
                            }
                        }
                        assert forall|q: usize, u: usize, n: usize| #[trigger]
                            self.has(q, u, n) <==> start.has(q, u, n) || row_writes(
                                more,
                                *seats,
                                q,
                                u,
                                n,
                            ) by {
                            lemma_row_writes_push(head, t@[i as int], *seats, q, u, n);
                            assert(mid.has(q, u, n) <==> before.has(q, u, n));
                        }
                    }
                },
                None => {
                    proof {
                        assert forall|q: usize, u: usize, n: usize| #[trigger]
                            self.has(q, u, n) <==> start.has(q, u, n) || row_writes(
                                more,
                                *seats,
                                q,
                                u,
                                n,
                            ) by {
                            lemma_row_writes_push(head, t@[i as int], *seats, q, u, n);
                        }
                    }
                },
            }
            i += 1;
        }
        proof {
            assert(t@.take(i as int) =~= t@);
        }
    }
}

proof fn lemma_row_writes_push(
    t: Seq<Seq<usize>>,
    row: Seq<usize>,
    seats: Seats,
    p: usize,
    v: usize,
    l: usize,
)
    ensures
        row_writes(t.push(row), seats, p, v, l) <==> row_writes(t, seats, p, v, l) || (row[1] == v
            && seats.seat(row[0]) == Some((p, l))),
{
    let u = t.push(row);
    if row_writes(t, seats, p, v, l) {
        let j = choose|j: int|
            0 <= j < t.len() && (#[trigger] t[j])[1] == v && seats.seat(t[j][0]) == Some((p, l));
        assert(u[j] == t[j]);
    }
    if row[1] == v && seats.seat(row[0]) == Some((p, l)) {
        assert(u[t.len() as int] == row);
    }
}

/// A row of a relation whose second column is overwritten.
proof fn lemma_row_writes(
    t: Seq<Seq<usize>>,
    seats: Seats,
    ns: Seq<Name>,
    prog: Program,
    p: usize,
    v: usize,
    l: usize,
)
    requires
        seats.ok(ns, prog.in_proc@),
        ns.no_duplicates(),
        p < ns.len(),
        v < ns.len(),
        row_writes(t, seats, p, v, l),
        forall|j: int|
            0 <= j < t.len() ==> (#[trigger] t[j]).len() >= 2 && t[j][0] < ns.len() && t[j][1]
                < ns.len() && stmt_defines(prog@, ns[t[j][0] as int], ns[t[j][1] as int]),
    ensures
        defines(prog, ns[p as int], l, ns[v as int]),
{
    let j = choose|j: int|
        0 <= j < t.len() && (#[trigger] t[j])[1] == v && seats.seat(t[j][0]) == Some((p, l));
    assert(place(prog.in_proc@, ns[t[j][0] as int]) == Some((ns[p as int], l)));
}

/// The statement of a row stands where the row's seat is.
proof fn lemma_seat(seats: Seats, ns: Seq<Name>, prog: Program, s: usize, p: usize, l: usize)
    requires
        seats.ok(ns, prog.in_proc@),
        ns.no_duplicates(),
        s < ns.len(),
        p < ns.len(),
        place(prog.in_proc@, ns[s as int]) == Some((ns[p as int], l)),
    ensures
        seats.seat(s) == Some((p, l)),
{
    assert(seats.seat(s) is Some);
}

/// Everything that overwrites a variable.
pub fn find_writes(
    facts: &Facts,
    statics: &Table,
    seats: &Seats,
    prog: &Program,
    Ghost(ns): Ghost<Seq<Name>>,
) -> (r: Writes)
    requires
        facts.ok(ns, prog@),
        statics.wf(),
        means_four(statics@, ns, prog@.load_static),
        ns.no_duplicates(),
        seats.ok(ns, prog.in_proc@),
    ensures
        r.ok(),
        forall|p: usize, v: usize, l: usize|
            p < ns.len() && v < ns.len() ==> (#[trigger] r.has(p, v, l) <==> defines(
                *prog,
                ns[p as int],
                l,
                ns[v as int],
            )),
{
    let ghost e = prog@;
    let mut r = Writes { spots: Table::new(), lines: Table::new() };
    proof {
        lemma_definers(facts, statics@, ns, e);
        assert forall|p: usize, v: usize, l: usize| !#[trigger] r.has(p, v, l) by {
        }
    }
    r.add(&facts.mov, seats);
    r.add(&facts.alloc, seats);
    r.add(&facts.const_assign, seats);
    r.add(&facts.load_field, seats);
    r.add(statics, seats);
    r.add(&facts.load_index_const, seats);
    r.add(&facts.load_index_var, seats);
    r.add(&facts.bind_ret, seats);
    proof {
        assert forall|p: usize, v: usize, l: usize|
            p < ns.len() && v < ns.len() implies (#[trigger] r.has(p, v, l) <==> defines(
            *prog,
            ns[p as int],
            l,
            ns[v as int],
        )) by {
            if r.has(p, v, l) {
                if row_writes(facts.mov@, *seats, p, v, l) {
                    lemma_row_writes(facts.mov@, *seats, ns, *prog, p, v, l);
                } else if row_writes(facts.alloc@, *seats, p, v, l) {
                    lemma_row_writes(facts.alloc@, *seats, ns, *prog, p, v, l);
                } else if row_writes(facts.const_assign@, *seats, p, v, l) {
                    lemma_row_writes(facts.const_assign@, *seats, ns, *prog, p, v, l);
                } else if row_writes(facts.load_field@, *seats, p, v, l) {
                    lemma_row_writes(facts.load_field@, *seats, ns, *prog, p, v, l);
                } else if row_writes(statics@, *seats, p, v, l) {
                    lemma_row_writes(statics@, *seats, ns, *prog, p, v, l);
                } else if row_writes(facts.load_index_const@, *seats, p, v, l) {
                    lemma_row_writes(facts.load_index_const@, *seats, ns, *prog, p, v, l);
                } else if row_writes(facts.load_index_var@, *seats, p, v, l) {
                    lemma_row_writes(facts.load_index_var@, *seats, ns, *prog, p, v, l);
                } else {
                    lemma_row_writes(facts.bind_ret@, *seats, ns, *prog, p, v, l);
                }
            }
            if defines(*prog, ns[p as int], l, ns[v as int]) {
                let s = choose|s: Name| #[trigger]
                    place(prog.in_proc@, s) == Some((ns[p as int], l)) && stmt_defines(
                        e,
                        s,
                        ns[v as int],
                    );
                let (t, j) = lemma_definer(facts, statics@, ns, e, s, ns[v as int]);
                lemma_seat(*seats, ns, *prog, t[j][0], p, l);
                assert(row_writes(t, *seats, p, v, l));
            }
        }
    }
    r
}

/// The rows of these tables overwrite their second columns.
proof fn lemma_definers(facts: &Facts, statics: Seq<Seq<usize>>, ns: Seq<Name>, e: Edb)
    requires
        facts.ok(ns, e),
        means_four(statics, ns, e.load_static),
    ensures
        writes_second(facts.mov@, ns, e),
        writes_second(facts.alloc@, ns, e),
        writes_second(facts.const_assign@, ns, e),
        writes_second(facts.load_field@, ns, e),
        writes_second(statics, ns, e),
        writes_second(facts.load_index_const@, ns, e),
        writes_second(facts.load_index_var@, ns, e),
        writes_second(facts.bind_ret@, ns, e),
{
    assert forall|j: int| 0 <= j < facts.mov@.len()
        implies second_ok(#[trigger] facts.mov@[j], ns, e) by {
        assert(three_ok(ns, facts.mov@[j]));
        let x = three_row(ns, facts.mov@[j]);
        assert(e.mov.contains((x.0, x.1, x.2)));
    }
    assert forall|j: int| 0 <= j < facts.alloc@.len() implies second_ok(
        #[trigger] facts.alloc@[j],
        ns,
        e,
    ) by {
        assert(three_ok(ns, facts.alloc@[j]));
        let x = three_row(ns, facts.alloc@[j]);
        assert(e.alloc.contains((x.0, x.1, x.2)));
    }
    assert forall|j: int| 0 <= j < facts.const_assign@.len() implies second_ok(
        #[trigger] facts.const_assign@[j],
        ns,
        e,
    ) by {
        assert(three_ok(ns, facts.const_assign@[j]));
        let x = three_row(ns, facts.const_assign@[j]);
        assert(e.const_assign.contains((x.0, x.1, x.2)));
    }
    assert forall|j: int| 0 <= j < facts.load_field@.len() implies second_ok(
        #[trigger] facts.load_field@[j],
        ns,
        e,
    ) by {
        assert(four_ok(ns, facts.load_field@[j]));
        let x = four_row(ns, facts.load_field@[j]);
        assert(e.load_field.contains((x.0, x.1, x.2, x.3)));
    }
    assert forall|j: int| 0 <= j < statics.len()
        implies second_ok(#[trigger] statics[j], ns, e) by {
        assert(four_ok(ns, statics[j]));
        let x = four_row(ns, statics[j]);
        assert(e.load_static.contains((x.0, x.1, x.2, x.3)));
    }
    assert forall|j: int| 0 <= j < facts.load_index_const@.len() implies second_ok(
        #[trigger] facts.load_index_const@[j],
        ns,
        e,
    ) by {
        assert(four_ok(ns, facts.load_index_const@[j]));
        let x = four_row(ns, facts.load_index_const@[j]);
        assert(e.load_index_const.contains((x.0, x.1, x.2, x.3)));
    }
    assert forall|j: int| 0 <= j < facts.load_index_var@.len() implies second_ok(
        #[trigger] facts.load_index_var@[j],
        ns,
        e,
    ) by {
        assert(four_ok(ns, facts.load_index_var@[j]));
        let x = four_row(ns, facts.load_index_var@[j]);
        assert(e.load_index_var.contains((x.0, x.1, x.2, x.3)));
    }
    assert forall|j: int| 0 <= j < facts.bind_ret@.len() implies second_ok(
        #[trigger] facts.bind_ret@[j],
        ns,
        e,
    ) by {
        assert(two_ok(ns, facts.bind_ret@[j]));
    }
}

pub open spec fn second_ok(row: Seq<usize>, ns: Seq<Name>, e: Edb) -> bool {
    row.len() >= 2 && row[0] < ns.len() && row[1] < ns.len() && stmt_defines(
        e,
        ns[row[0] as int],
        ns[row[1] as int],
    )
}

pub open spec fn writes_second(t: Seq<Seq<usize>>, ns: Seq<Name>, e: Edb) -> bool {
    forall|j: int| 0 <= j < t.len() ==> second_ok(#[trigger] t[j], ns, e)
}

/// The row that says that a statement overwrites a variable.
proof fn lemma_definer(
    facts: &Facts,
    statics: Seq<Seq<usize>>,
    ns: Seq<Name>,
    e: Edb,
    s: Name,
    v: Name,
) -> (r: (Seq<Seq<usize>>, int))
    requires
        facts.ok(ns, e),
        means_four(statics, ns, e.load_static),
        stmt_defines(e, s, v),
    ensures
        0 <= r.1 < r.0.len(),
        r.0[r.1].len() >= 2,
        r.0[r.1][0] < ns.len(),
        r.0[r.1][1] < ns.len(),
        ns[r.0[r.1][0] as int] == s,
        ns[r.0[r.1][1] as int] == v,
        r.0 == facts.mov@ || r.0 == facts.alloc@ || r.0 == facts.const_assign@ || r.0
            == facts.load_field@ || r.0 == statics || r.0 == facts.load_index_const@ || r.0
            == facts.load_index_var@ || r.0 == facts.bind_ret@,
{
    if e.bind_ret.contains((s, v)) {
        (facts.bind_ret@, lemma_find_two(facts.bind_ret@, ns, e.bind_ret, (s, v)))
    } else if exists|x: Name| e.mov.contains((s, v, x)) {
        let x = choose|x: Name| e.mov.contains((s, v, x));
        (facts.mov@, lemma_find_three(facts.mov@, ns, e.mov, (s, v, x)))
    } else if exists|x: Name| e.alloc.contains((s, v, x)) {
        let x = choose|x: Name| e.alloc.contains((s, v, x));
        (facts.alloc@, lemma_find_three(facts.alloc@, ns, e.alloc, (s, v, x)))
    } else if exists|x: Name| e.const_assign.contains((s, v, x)) {
        let x = choose|x: Name| e.const_assign.contains((s, v, x));
        (facts.const_assign@, lemma_find_three(facts.const_assign@, ns, e.const_assign, (s, v, x)))
    } else if exists|x: Name, y: Name| e.load_field.contains((s, v, x, y)) {
        let (x, y) = choose|x: Name, y: Name| e.load_field.contains((s, v, x, y));
        (facts.load_field@, lemma_find_four(facts.load_field@, ns, e.load_field, (s, v, x, y)))
    } else if exists|x: Name, y: Name| e.load_static.contains((s, v, x, y)) {
        let (x, y) = choose|x: Name, y: Name| e.load_static.contains((s, v, x, y));
        (statics, lemma_find_four(statics, ns, e.load_static, (s, v, x, y)))
    } else if exists|x: Name, y: Name| e.load_index_const.contains((s, v, x, y)) {
        let (x, y) = choose|x: Name, y: Name| e.load_index_const.contains((s, v, x, y));
        (
            facts.load_index_const@,
            lemma_find_four(facts.load_index_const@, ns, e.load_index_const, (s, v, x, y)),
        )
    } else {
        let (x, y) = choose|x: Name, y: Name| e.load_index_var.contains((s, v, x, y));
        (
            facts.load_index_var@,
            lemma_find_four(facts.load_index_var@, ns, e.load_index_var, (s, v, x, y)),
        )
    }
}

} // verus!
