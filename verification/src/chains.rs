//! Walking a program's links from the last line to the first.
use vstd::prelude::*;

use crate::access_path::Step;
use crate::codes::{flat_ok, flat_steps, lemma_flat_append, step_of, step_ok};
use crate::derived::add_column;
use crate::facts::{
    four_ok, four_row, lemma_find_four, lemma_find_three, three_ok, three_row, Facts,
};
use crate::ir::{Edb, Line, Name, Program};
use crate::links::{has_link, links_ok, stands_for, Link, Writes};
use crate::order::{before, parts_at, sort, spans};
use crate::path_bound::{clear, decidable, defines, hangs, link, mentions, reaches, under};
use crate::roster::pair_row;
use crate::table::Table;

verus! {

// ---------------------------------------------------------------------------
// The accessors that a variable index can be decided to
// ---------------------------------------------------------------------------

/// The list spells exactly the accessors that an index can be decided to.
pub open spec fn spells(list: Seq<(usize, usize)>, ns: Seq<Name>, e: Edb) -> bool {
    &&& forall|i: int|
        0 <= i < list.len() ==> step_ok(ns, (#[trigger] list[i]).0, list[i].1) && decidable(
            e,
            step_of(ns, list[i].0, list[i].1),
        )
    &&& forall|a: Step| #[trigger]
        decidable(e, a) ==> exists|i: int|
            0 <= i < list.len() && step_of(ns, (#[trigger] list[i]).0, list[i].1) == a
}

/// `[π]`, and `[c]` for every constant the program mentions.
pub fn decidable_indices(facts: &Facts, Ghost(ns): Ghost<Seq<Name>>, Ghost(e): Ghost<Edb>)
    -> (r: Vec<
    (usize, usize),
>)
    requires
        facts.ok(ns, e),
        ns.no_duplicates(),
    ensures
        spells(r@, ns, e),
{
    proof {
        assert forall|i: int| 0 <= i < facts.const_assign@.len() implies 2 < (
        #[trigger] facts.const_assign@[i]).len() by {
            assert(three_ok(ns, facts.const_assign@[i]));
        }
        assert forall|i: int| 0 <= i < facts.load_index_const@.len() implies 3 < (
        #[trigger] facts.load_index_const@[i]).len() by {
            assert(four_ok(ns, facts.load_index_const@[i]));
        }
        assert forall|i: int| 0 <= i < facts.store_index_const@.len() implies 2 < (
        #[trigger] facts.store_index_const@[i]).len() by {
            assert(four_ok(ns, facts.store_index_const@[i]));
        }
    }
    let mut t = Table::new();
    add_column(&mut t, &facts.const_assign, 2);
    add_column(&mut t, &facts.load_index_const, 3);
    add_column(&mut t, &facts.store_index_const, 2);
    let mut r: Vec<(usize, usize)> = vec![(2, 0)];
    let mut i: usize = 0;
    proof {
        assert forall|row: Seq<usize>| #[trigger] t@.contains(row) implies row.len() == 1 && row[0]
            < ns.len() && mentions(e, ns[row[0] as int]) by {
            if exists|j: int|
                0 <= j < facts.const_assign@.len() && row == seq![
                    (#[trigger] facts.const_assign@[j])[2],
                ] {
                let j = choose|j: int|
                    0 <= j < facts.const_assign@.len() && row == seq![
                        (#[trigger] facts.const_assign@[j])[2],
                    ];
                assert(three_ok(ns, facts.const_assign@[j]));
                let x = three_row(ns, facts.const_assign@[j]);
                assert(e.const_assign.contains((x.0, x.1, x.2)));
            } else if exists|j: int|
                0 <= j < facts.load_index_const@.len() && row == seq![
                    (#[trigger] facts.load_index_const@[j])[3],
                ] {
                let j = choose|j: int|
                    0 <= j < facts.load_index_const@.len() && row == seq![
                        (#[trigger] facts.load_index_const@[j])[3],
                    ];
                assert(four_ok(ns, facts.load_index_const@[j]));
                let x = four_row(ns, facts.load_index_const@[j]);
                assert(e.load_index_const.contains((x.0, x.1, x.2, x.3)));
            } else {
                let j = choose|j: int|
                    0 <= j < facts.store_index_const@.len() && row == seq![
                        (#[trigger] facts.store_index_const@[j])[2],
                    ];
                assert(four_ok(ns, facts.store_index_const@[j]));
                let x = four_row(ns, facts.store_index_const@[j]);
                assert(e.store_index_const.contains((x.0, x.1, x.2, x.3)));
            }
        }
        assert forall|j: int| 0 <= j < t@.len() implies (#[trigger] t@[j]).len() == 1 && t@[j][0]
            < ns.len() && mentions(e, ns[t@[j][0] as int]) by {
            assert(t@.contains(t@[j]));
        }
        assert(step_of(ns, r@[0].0, r@[0].1) == Step::Unknown);
    }
    while i < t.len()
        invariant
            i <= t@.len(),
            forall|j: int|
                0 <= j < t@.len() ==> (#[trigger] t@[j]).len() == 1 && t@[j][0] < ns.len()
                    && mentions(e, ns[t@[j][0] as int]),
            r@.len() == i + 1,
            r@[0] == (2usize, 0usize),
            forall|j: int| 0 <= j < i ==> #[trigger] r@[j + 1] == (1usize, t@[j][0]),
        decreases t@.len() - i,
    {
        proof {
            assert(t@[i as int].len() == 1);
        }
        r.push((1, t.at(i, 0)));
        i += 1;
    }
    proof {
        assert forall|q: int| 0 <= q < r@.len() implies step_ok(ns, (#[trigger] r@[q]).0, r@[q].1)
            && decidable(e, step_of(ns, r@[q].0, r@[q].1)) by {
            if q > 0 {
                assert(r@[(q - 1) + 1] == (1usize, t@[q - 1][0]));
                assert(mentions(e, ns[t@[q - 1][0] as int]));
            }
        }
        assert forall|a: Step| #[trigger] decidable(e, a) implies exists|i: int|
            0 <= i < r@.len() && step_of(ns, (#[trigger] r@[i]).0, r@[i].1) == a by {
            match a {
                Step::Unknown => {
                    assert(step_of(ns, r@[0].0, r@[0].1) == a);
                },
                Step::Index(c) => {
                    let row = lemma_mentioned(facts, t@, ns, e, c);
                    let j = choose|j: int| 0 <= j < t@.len() && t@[j] == row;
                    assert(r@[j + 1] == (1usize, t@[j][0]));
                    assert(step_of(ns, r@[j + 1].0, r@[j + 1].1) == a);
                },
                _ => {},
            }
        }
    }
    r
}

/// The row of a constant that the program mentions.
proof fn lemma_mentioned(facts: &Facts, t: Seq<Seq<usize>>, ns: Seq<Name>, e: Edb, c: Name)
    -> (row: Seq<
    usize,
>)
    requires
        facts.ok(ns, e),
        mentions(e, c),
        forall|row: Seq<usize>|
            (exists|j: int|
                0 <= j < facts.const_assign@.len() && row == seq![
                    (#[trigger] facts.const_assign@[j])[2],
                ]) ==> #[trigger] t.contains(row),
        forall|row: Seq<usize>|
            (exists|j: int|
                0 <= j < facts.load_index_const@.len() && row == seq![
                    (#[trigger] facts.load_index_const@[j])[3],
                ]) ==> #[trigger] t.contains(row),
        forall|row: Seq<usize>|
            (exists|j: int|
                0 <= j < facts.store_index_const@.len() && row == seq![
                    (#[trigger] facts.store_index_const@[j])[2],
                ]) ==> #[trigger] t.contains(row),
    ensures
        t.contains(row),
        row.len() == 1,
        row[0] < ns.len(),
        ns[row[0] as int] == c,
{
    if exists|s: Name, v: Name| e.const_assign.contains((s, v, c)) {
        let (s, v) = choose|s: Name, v: Name| e.const_assign.contains((s, v, c));
        let j = lemma_find_three(facts.const_assign@, ns, e.const_assign, (s, v, c));
        let row = seq![facts.const_assign@[j][2]];
        assert(t.contains(row));
        row
    } else if exists|s: Name, to: Name, base: Name| e.load_index_const.contains((s, to, base, c)) {
        let (s, to, base) = choose|s: Name, to: Name, base: Name|
            e.load_index_const.contains((s, to, base, c));
        let j = lemma_find_four(
            facts.load_index_const@,
            ns,
            e.load_index_const,
            (s, to, base, c),
        );
        let row = seq![facts.load_index_const@[j][3]];
        assert(t.contains(row));
        row
    } else {
        let (s, base, from) = choose|s: Name, base: Name, from: Name|
            e.store_index_const.contains((s, base, c, from));
        let j = lemma_find_four(
            facts.store_index_const@,
            ns,
            e.store_index_const,
            (s, base, c, from),
        );
        let row = seq![facts.store_index_const@[j][2]];
        assert(t.contains(row));
        row
    }
}

// ---------------------------------------------------------------------------
// What hangs where
// ---------------------------------------------------------------------------

/// The row of the suffix `f` hung off a spot at a line.
pub open spec fn hung_row(x: usize, l: usize, f: Seq<usize>) -> Seq<usize> {
    seq![x, l] + f
}

/// `t` says that line `l` hangs `rho` off the variable `v` of `p`.
pub open spec fn hung(
    t: Seq<Seq<usize>>,
    spots: Seq<Seq<usize>>,
    ns: Seq<Name>,
    p: usize,
    v: usize,
    l: usize,
    rho: Seq<Step>,
) -> bool {
    exists|x: usize, f: Seq<usize>|
        x < spots.len() && spots[x as int] == pair_row(p, v) && #[trigger] t.contains(
            hung_row(x, l, f),
        ) && flat_ok(ns, f) && flat_steps(ns, f) == rho
}

/// What a walk knows: the program, the cap and the names.
pub struct Walk {
    pub prog: Program,
    pub max: Option<usize>,
    pub ns: Seq<Name>,
}

impl Walk {
    /// A row says something that holds.
    pub open spec fn row_ok(self, row: Seq<usize>, spots: Seq<Seq<usize>>) -> bool {
        &&& row.len() >= 2
        &&& row[0] < spots.len()
        &&& flat_ok(self.ns, row.skip(2))
        &&& spots[row[0] as int].len() == 2
        &&& spots[row[0] as int][0] < self.ns.len()
        &&& spots[row[0] as int][1] < self.ns.len()
        &&& hangs(
            self.prog,
            self.max,
            self.ns[spots[row[0] as int][0] as int],
            self.ns[spots[row[0] as int][1] as int],
            flat_steps(self.ns, row.skip(2)),
            row[1],
        )
    }

    pub open spec fn rows_ok(self, t: Seq<Seq<usize>>, spots: Seq<Seq<usize>>) -> bool {
        forall|row: Seq<usize>| #[trigger] t.contains(row) ==> self.row_ok(row, spots)
    }

    /// `v` is not redefined between two lines.
    pub open spec fn open_between(self, p: usize, v: usize, l: usize, m: usize) -> bool {
        clear(self.prog, self.ns[p as int], self.ns[v as int], l, m)
    }

    /// What a link hangs by itself is there.
    pub open spec fn done_alone(self, t: Seq<Seq<usize>>, spots: Seq<Seq<usize>>, k: Link) -> bool {
        forall|a: Step| #[trigger]
            k.puts(self.ns, self.prog@, Some(a)) && under(self.max, 1) ==> hung(
                t,
                spots,
                self.ns,
                k.p,
                k.dst,
                k.line,
                seq![a],
            )
    }

    /// What a link hangs in front of what reaches it is there.
    pub open spec fn done_further(self, t: Seq<Seq<usize>>, spots: Seq<Seq<usize>>, k: Link)
        -> bool {
        forall|acc: Option<Step>, m: usize, rho: Seq<Step>|
            #[trigger] k.puts(self.ns, self.prog@, acc) && #[trigger] hung(
                t,
                spots,
                self.ns,
                k.p,
                k.src,
                m,
                rho,
            ) && k.line < m && self.open_between(k.p, k.src, k.line, m) && rho.len() > 0 && (
            acc is Some ==> under(self.max, rho.len() + 1)) ==> hung(
                t,
                spots,
                self.ns,
                k.p,
                k.dst,
                k.line,
                longer(acc, rho),
            )
    }

    pub open spec fn done(self, t: Seq<Seq<usize>>, spots: Seq<Seq<usize>>, k: Link) -> bool {
        self.done_alone(t, spots, k) && self.done_further(t, spots, k)
    }
}

/// A suffix behind an accessor, if there is one.
pub open spec fn longer(acc: Option<Step>, rho: Seq<Step>) -> Seq<Step> {
    match acc {
        None => rho,
        Some(a) => seq![a] + rho,
    }
}

/// Old spots keep their numbers.
pub open spec fn spots_kept(a: Seq<Seq<usize>>, b: Seq<Seq<usize>>) -> bool {
    a.len() <= b.len() && forall|i: int| 0 <= i < a.len() ==> #[trigger] b[i] == a[i]
}

proof fn lemma_hung_kept(
    t: Seq<Seq<usize>>,
    u: Seq<Seq<usize>>,
    a: Seq<Seq<usize>>,
    b: Seq<Seq<usize>>,
    ns: Seq<Name>,
)
    requires
        spots_kept(a, b),
        forall|row: Seq<usize>| t.contains(row) ==> #[trigger] u.contains(row),
    ensures
        forall|p: usize, v: usize, l: usize, rho: Seq<Step>|
            hung(t, a, ns, p, v, l, rho) ==> #[trigger] hung(u, b, ns, p, v, l, rho),
{
    assert forall|p: usize, v: usize, l: usize, rho: Seq<Step>| hung(t, a, ns, p, v, l, rho) implies
    #[trigger] hung(u, b, ns, p, v, l, rho) by {
        let (x, f) = choose|x: usize, f: Seq<usize>|
            x < a.len() && a[x as int] == pair_row(p, v) && #[trigger] t.contains(hung_row(x, l, f))
                && flat_ok(ns, f) && flat_steps(ns, f) == rho;
        assert(u.contains(hung_row(x, l, f)));
    }
}

/// A link that is done stays done when rows of no later line are added.
proof fn lemma_done_kept(
    w: Walk,
    t: Seq<Seq<usize>>,
    u: Seq<Seq<usize>>,
    a: Seq<Seq<usize>>,
    b: Seq<Seq<usize>>,
    k: Link,
    line: usize,
)
    requires
        spots_kept(a, b),
        w.rows_ok(t, a),
        forall|row: Seq<usize>| t.contains(row) ==> #[trigger] u.contains(row),
        forall|row: Seq<usize>| #[trigger]
            u.contains(row) && !t.contains(row) ==> row.len() >= 2 && row[1] <= line,
        line <= k.line,
        w.done(t, a, k),
    ensures
        w.done(u, b, k),
{
    let ns = w.ns;
    lemma_hung_kept(t, u, a, b, ns);
    assert forall|x: Step| #[trigger]
        k.puts(ns, w.prog@, Some(x)) && under(w.max, 1) implies hung(
        u,
        b,
        ns,
        k.p,
        k.dst,
        k.line,
        seq![x],
    ) by {
        assert(hung(t, a, ns, k.p, k.dst, k.line, seq![x]));
    }
    assert forall|acc: Option<Step>, m: usize, rho: Seq<Step>|
        #[trigger] k.puts(ns, w.prog@, acc) && #[trigger] hung(u, b, ns, k.p, k.src, m, rho)
            && k.line < m && w.open_between(k.p, k.src, k.line, m) && rho.len() > 0 && (acc is Some
            ==> under(w.max, rho.len() + 1)) implies hung(
        u,
        b,
        ns,
        k.p,
        k.dst,
        k.line,
        longer(acc, rho),
    ) by {
        let (x, f) = choose|x: usize, f: Seq<usize>|
            x < b.len() && b[x as int] == pair_row(k.p, k.src) && #[trigger] u.contains(
                hung_row(x, m, f),
            ) && flat_ok(ns, f) && flat_steps(ns, f) == rho;
        let row = hung_row(x, m, f);
        assert(row[1] == m && row[0] == x);
        assert(t.contains(row));
        assert(w.row_ok(row, a));
        assert(a[x as int] == b[x as int]);
        assert(hung(t, a, ns, k.p, k.src, m, rho));
        assert(hung(t, a, ns, k.p, k.dst, k.line, longer(acc, rho)));
    }
}

/// The least line after `l` at which a spot is overwritten.
fn barrier(writes: &Writes, x: usize, l: usize) -> (r: Option<usize>)
    requires
        writes.ok(),
    ensures
        match r {
            Some(b) => l < b && writes.lines@.contains(pair_row(x, b)) && forall|n: usize|
                l < n < b ==> !writes.lines@.contains(#[trigger] pair_row(x, n)),
            None => forall|n: usize|
                l < n ==> !writes.lines@.contains(#[trigger] pair_row(x, n)),
        },
{
    let t = &writes.lines;
    let list = t.heads(x);
    let mut r: Option<usize> = None;
    let mut j: usize = 0;
    while j < list.len()
        invariant
            j <= list@.len(),
            t == &writes.lines,
            writes.ok(),
            forall|z: int|
                0 <= z < list@.len() ==> (#[trigger] list@[z]) < t@.len() && t@[list@[z] as int][0]
                    == x,
            match r {
                Some(b) => l < b && t@.contains(pair_row(x, b)) && forall|z: int|
                    0 <= z < j && l < t@[#[trigger] list@[z] as int][1] ==> b
                        <= t@[list@[z] as int][1],
                None => forall|z: int| 0 <= z < j ==> t@[#[trigger] list@[z] as int][1] <= l,
            },
        decreases list@.len() - j,
    {
        let i: usize = list[j];
        proof {
            assert(t@.contains(t@[i as int]));
        }
        let n: usize = t.at(i, 1);
        if l < n {
            let better = match r {
                Some(b) => n < b,
                None => true,
            };
            if better {
                proof {
                    assert(t@[i as int] =~= pair_row(x, n));
                }
                r = Some(n);
            }
        }
        j += 1;
    }
    proof {
        t.lemma_distinct();
        assert forall|n: usize| l < n && t@.contains(#[trigger] pair_row(x, n)) implies match r {
            Some(b) => b <= n,
            None => false,
        } by {
            let row = pair_row(x, n);
            let i = choose|i: int| 0 <= i < t@.len() && t@[i] == row;
            assert(row[0] == x && row[1] == n);
            assert(list@.contains(i as usize));
            let z = choose|z: int| 0 <= z < list@.len() && list@[z] == i as usize;
            assert(t@[list@[z] as int][1] == n);
        }
    }
    r
}

/// The walk's writes are the program's definitions.
pub open spec fn writes_ok(w: Walk, writes: Writes) -> bool {
    &&& writes.ok()
    &&& forall|p: usize, v: usize, l: usize|
        p < w.ns.len() && v < w.ns.len() ==> (#[trigger] writes.has(p, v, l) <==> defines(
            w.prog,
            w.ns[p as int],
            l,
            w.ns[v as int],
        ))
}

/// A barrier decides what is open.
proof fn lemma_barrier(w: Walk, writes: Writes, x: usize, p: usize, v: usize, l: usize, m: usize)
    requires
        writes_ok(w, writes),
        x < writes.spots@.len(),
        writes.spots@[x as int] == pair_row(p, v),
        p < w.ns.len(),
        v < w.ns.len(),
    ensures
        w.open_between(p, v, l, m) <==> (forall|n: usize|
            l < n < m ==> !writes.lines@.contains(#[trigger] pair_row(x, n))),
{
    assert forall|n: usize| writes.has(p, v, n) <==> writes.lines@.contains(
        #[trigger] pair_row(x, n),
    ) by {
        if writes.has(p, v, n) {
            let y = choose|y: usize|
                y < writes.spots@.len() && #[trigger] writes.lines@.contains(pair_row(y, n))
                    && writes.spots@[y as int] == pair_row(p, v);
            writes.spots.lemma_distinct();
            assert(writes.spots@[x as int] == writes.spots@[y as int]);
        }
    }
    if w.open_between(p, v, l, m) {
        assert forall|n: usize| l < n < m
            implies !writes.lines@.contains(#[trigger] pair_row(x, n)) by {
            assert(!defines(w.prog, w.ns[p as int], n, w.ns[v as int]));
            assert(!writes.has(p, v, n));
        }
    }
    if forall|n: usize| l < n < m ==> !writes.lines@.contains(#[trigger] pair_row(x, n)) {
        assert forall|n: Line| l < n < m implies !#[trigger] defines(
            w.prog,
            w.ns[p as int],
            n,
            w.ns[v as int],
        ) by {
            assert(!writes.lines@.contains(pair_row(x, n)));
            assert(!writes.has(p, v, n));
        }
    }
}

/// The suffix `f` reaches line `l` through the spot `x`.
pub open spec fn arrives(
    t: Seq<Seq<usize>>,
    w: Walk,
    x: usize,
    p: usize,
    v: usize,
    l: usize,
    f: Seq<usize>,
) -> bool {
    exists|m: usize|
        l < m && w.open_between(p, v, l, m) && #[trigger] t.contains(hung_row(x, m, f))
}

pub open spec fn listed(list: Seq<Vec<usize>>, f: Seq<usize>) -> bool {
    exists|i: int| 0 <= i < list.len() && (#[trigger] list[i])@ == f
}

/// The suffixes that reach a line through a spot: rows without their first two
/// numbers.
fn reaching(
    t: &Table,
    writes: &Writes,
    x: usize,
    p: usize,
    v: usize,
    l: usize,
    Ghost(w): Ghost<Walk>,
) -> (r: Vec<Vec<usize>>)
    requires
        t.wf(),
        w.rows_ok(t@, writes.spots@),
        writes_ok(w, *writes),
        x < writes.spots@.len(),
        writes.spots@[x as int] == pair_row(p, v),
        p < w.ns.len(),
        v < w.ns.len(),
    ensures
        forall|i: int| 0 <= i < r@.len() ==> arrives(t@, w, x, p, v, l, (#[trigger] r@[i])@),
        forall|m: usize, f: Seq<usize>|
            l < m && w.open_between(p, v, l, m) && #[trigger] t@.contains(hung_row(x, m, f))
                ==> listed(r@, f),
{
    let b = barrier(writes, x, l);
    let list = t.heads(x);
    let mut r: Vec<Vec<usize>> = Vec::new();
    let mut j: usize = 0;
    while j < list.len()
        invariant
            j <= list@.len(),
            w.rows_ok(t@, writes.spots@),
            writes_ok(w, *writes),
            x < writes.spots@.len(),
            writes.spots@[x as int] == pair_row(p, v),
            p < w.ns.len(),
            v < w.ns.len(),
            match b {
                Some(b) => l < b && writes.lines@.contains(pair_row(x, b)) && forall|n: usize|
                    l < n < b ==> !writes.lines@.contains(#[trigger] pair_row(x, n)),
                None => forall|n: usize|
                    l < n ==> !writes.lines@.contains(#[trigger] pair_row(x, n)),
            },
            forall|z: int|
                0 <= z < list@.len() ==> (#[trigger] list@[z]) < t@.len() && t@[list@[z] as int][0]
                    == x,
            forall|i: int| 0 <= i < r@.len() ==> arrives(t@, w, x, p, v, l, (#[trigger] r@[i])@),
            forall|z: int|
                0 <= z < j && l < t@[#[trigger] list@[z] as int][1] && w.open_between(
                    p,
                    v,
                    l,
                    t@[list@[z] as int][1],
                ) ==> listed(r@, t@[list@[z] as int].skip(2)),
        decreases list@.len() - j,
    {
        let i: usize = list[j];
        let ghost r0 = r@;
        proof {
            assert(t@.contains(t@[i as int]));
            assert(w.row_ok(t@[i as int], writes.spots@));
        }
        let row = t.row(i);
        let m: usize = row[1];
        let near = match b {
            Some(b) => m <= b,
            None => true,
        };
        proof {
            lemma_barrier(w, *writes, x, p, v, l, m);
            if let Some(b) = b {
                if m > b {
                    assert(writes.lines@.contains(pair_row(x, b)));
                }
            }
        }
        if l < m && near {
            let mut f: Vec<usize> = Vec::new();
            let mut z: usize = 2;
            while z < row.len()
                invariant
                    2 <= z <= row@.len(),
                    f@ == row@.subrange(2, z as int),
                decreases row@.len() - z,
            {
                f.push(row[z]);
                proof {
                    assert(row@.subrange(2, z + 1) =~= row@.subrange(2, z as int).push(
                        row@[z as int],
                    ));
                }
                z += 1;
            }
            proof {
                assert(f@ =~= row@.skip(2));
                assert(row@ =~= hung_row(x, m, f@));
            }
            r.push(f);
            proof {
                assert(r@[r0.len() as int] == f);
                assert(listed(r@, row@.skip(2)));
                assert(t@.contains(hung_row(x, m, r@[r0.len() as int]@)));
                assert forall|g: Seq<usize>| listed(r0, g) implies #[trigger] listed(r@, g) by {
                    let q = choose|q: int| 0 <= q < r0.len() && (#[trigger] r0[q])@ == g;
                    assert(r@[q]@ == g);
                }
                assert(arrives(t@, w, x, p, v, l, f@));
            }
        }
        j += 1;
    }
    proof {
        t.lemma_distinct();
        assert forall|m: usize, f: Seq<usize>|
            l < m && w.open_between(p, v, l, m) && #[trigger] t@.contains(hung_row(x, m, f))
                implies listed(
            r@,
            f,
        ) by {
            let row = hung_row(x, m, f);
            let i = choose|i: int| 0 <= i < t@.len() && t@[i] == row;
            assert(row[0] == x && row[1] == m);
            assert(row.skip(2) =~= f);
            assert(list@.contains(i as usize));
            let z = choose|z: int| 0 <= z < list@.len() && list@[z] == i as usize;
            assert(t@[list@[z] as int] == row);
        }
    }
    r
}

/// What a list of numbers says about the accessors a link puts in front.
pub open spec fn fronts(list: Seq<(usize, usize)>, ns: Seq<Name>, e: Edb, k: Link) -> bool {
    &&& forall|i: int|
        0 <= i < list.len() ==> step_ok(ns, (#[trigger] list[i]).0, list[i].1) && k.puts(
            ns,
            e,
            Some(step_of(ns, list[i].0, list[i].1)),
        )
    &&& forall|a: Step| #[trigger]
        k.puts(ns, e, Some(a)) ==> exists|i: int|
            0 <= i < list.len() && step_of(ns, (#[trigger] list[i]).0, list[i].1) == a
}

/// Hang a suffix off a spot.
fn hang(
    t: &mut Table,
    x: usize,
    l: usize,
    head: Option<(usize, usize)>,
    f: &Vec<usize>,
    Ghost(w): Ghost<Walk>,
    Ghost(spots): Ghost<Seq<Seq<usize>>>,
    Ghost(p): Ghost<usize>,
    Ghost(v): Ghost<usize>,
)
    requires
        old(t).wf(),
        w.rows_ok(old(t)@, spots),
        x < spots.len(),
        spots[x as int] == pair_row(p, v),
        p < w.ns.len(),
        v < w.ns.len(),
        flat_ok(w.ns, f@),
        head is Some ==> step_ok(w.ns, (head->0).0, (head->0).1),
        hangs(
            w.prog,
            w.max,
            w.ns[p as int],
            w.ns[v as int],
            match head {
                Some(h) => seq![step_of(w.ns, h.0, h.1)] + flat_steps(w.ns, f@),
                None => flat_steps(w.ns, f@),
            },
            l,
        ),
    ensures
        final(t).wf(),
        w.rows_ok(final(t)@, spots),
        forall|row: Seq<usize>| old(t)@.contains(row) ==> #[trigger] final(t)@.contains(row),
        forall|row: Seq<usize>| #[trigger]
            final(t)@.contains(row) && !old(t)@.contains(row) ==> row.len() >= 2 && row[1] == l,
        hung(
            final(t)@,
            spots,
            w.ns,
            p,
            v,
            l,
            match head {
                Some(h) => seq![step_of(w.ns, h.0, h.1)] + flat_steps(w.ns, f@),
                None => flat_steps(w.ns, f@),
            },
        ),
{
    let mut row: Vec<usize> = vec![x, l];
    let ghost mut front = Seq::<usize>::empty();
    match head {
        Some((tag, n)) => {
            row.push(tag);
            row.push(n);
            proof {
                front = seq![tag, n];
                assert(flat_ok(w.ns, front)) by {
                    assert forall|j: int| 0 <= 2 * j < front.len() implies #[trigger] step_ok(
                        w.ns,
                        front[2 * j],
                        front[2 * j + 1],
                    ) by {
                        assert(j == 0);
                    }
                }
                assert(flat_steps(w.ns, front) =~= seq![step_of(w.ns, tag, n)]);
            }
        },
        None => {
            proof {
                assert(flat_ok(w.ns, front));
                assert(flat_steps(w.ns, front) =~= Seq::<Step>::empty());
            }
        },
    }
    let ghost start = row@;
    let mut z: usize = 0;
    while z < f.len()
        invariant
            z <= f@.len(),
            row@ == start + f@.take(z as int),
        decreases f@.len() - z,
    {
        row.push(f[z]);
        proof {
            assert(f@.take(z + 1) =~= f@.take(z as int).push(f@[z as int]));
            assert(row@ =~= start + f@.take(z + 1));
        }
        z += 1;
    }
    let ghost g = front + f@;
    let ghost cells = row@;
    proof {
        assert(f@.take(z as int) =~= f@);
        assert(cells =~= hung_row(x, l, g));
        assert(cells.skip(2) =~= g);
        lemma_flat_append(w.ns, front, f@);
        assert(flat_steps(w.ns, g) =~= match head {
            Some(h) => seq![step_of(w.ns, h.0, h.1)] + flat_steps(w.ns, f@),
            None => flat_steps(w.ns, f@),
        });
    }
    t.insert(row);
    proof {
        assert(t@.contains(hung_row(x, l, g)));
        assert(w.row_ok(cells, spots));
    }
}

/// Hang everything that one link hangs.
fn walk_link(
    t: &mut Table,
    writes: &mut Writes,
    k: &Link,
    heads: &Vec<(usize, usize)>,
    max: Option<usize>,
    Ghost(w): Ghost<Walk>,
)
    requires
        old(t).wf(),
        w.rows_ok(old(t)@, old(writes).spots@),
        writes_ok(w, *old(writes)),
        max == w.max,
        w.ns.no_duplicates(),
        k.ok(w.ns),
        fronts(heads@, w.ns, w.prog@, *k),
        k.kind == 0 ==> heads@.len() == 0,
        forall|acc: Option<Step>| #[trigger]
            k.puts(w.ns, w.prog@, acc) ==> link(
                w.prog,
                w.ns[k.p as int],
                k.line,
                w.ns[k.src as int],
                w.ns[k.dst as int],
                acc,
            ),
    ensures
        final(t).wf(),
        writes_ok(w, *final(writes)),
        spots_kept(old(writes).spots@, final(writes).spots@),
        w.rows_ok(final(t)@, final(writes).spots@),
        forall|row: Seq<usize>| old(t)@.contains(row) ==> #[trigger] final(t)@.contains(row),
        forall|row: Seq<usize>| #[trigger]
            final(t)@.contains(row) && !old(t)@.contains(row) ==> row.len() >= 2 && row[1]
                <= k.line,
        w.done(final(t)@, final(writes).spots@, *k),
{
    let ghost ns = w.ns;
    let ghost e = w.prog@;
    let ghost t0 = t@;
    let ghost s0 = writes.spots@;
    let x: usize = writes.spot(k.p, k.src);
    let y: usize = writes.spot(k.p, k.dst);
    let ghost spots = writes.spots@;
    proof {
        assert(w.rows_ok(t@, spots)) by {
            assert forall|row: Seq<usize>| #[trigger] t@.contains(row)
                implies w.row_ok(row, spots) by {
                assert(w.row_ok(row, s0));
                assert(spots[row[0] as int] == s0[row[0] as int]);
            }
        }
    }
    let list = reaching(t, writes, x, k.p, k.src, k.line, Ghost(w));
    let ghost p = k.p;
    let ghost v = k.dst;
    let ghost pn = ns[k.p as int];
    let ghost sn = ns[k.src as int];
    // What the link hangs by itself.
    let empty: Vec<usize> = Vec::new();
    proof {
        assert(flat_ok(ns, empty@));
        assert(flat_steps(ns, empty@) =~= Seq::<Step>::empty());
    }
    let alone = match max {
        Some(d) => d >= 1,
        None => true,
    };
    let mut i: usize = 0;
    while i < heads.len()
        invariant
            i <= heads@.len(),
            t.wf(),
            w.rows_ok(t@, spots),
            y < spots.len(),
            spots[y as int] == pair_row(p, v),
            p == k.p,
            v == k.dst,
            ns == w.ns,
            e == w.prog@,
            k.ok(ns),
            empty@.len() == 0,
            flat_ok(ns, empty@),
            flat_steps(ns, empty@) == Seq::<Step>::empty(),
            alone == under(w.max, 1),
            fronts(heads@, ns, e, *k),
            forall|acc: Option<Step>| #[trigger]
                k.puts(ns, e, acc) ==> link(
                    w.prog,
                    ns[k.p as int],
                    k.line,
                    ns[k.src as int],
                    ns[k.dst as int],
                    acc,
                ),
            forall|row: Seq<usize>| t0.contains(row) ==> #[trigger] t@.contains(row),
            forall|row: Seq<usize>| #[trigger]
                t@.contains(row) && !t0.contains(row) ==> row.len() >= 2 && row[1] == k.line,
            alone ==> forall|z: int|
                0 <= z < i ==> hung(
                    t@,
                    spots,
                    ns,
                    p,
                    v,
                    k.line,
                    seq![step_of(ns, (#[trigger] heads@[z]).0, heads@[z].1)],
                ),
        decreases heads@.len() - i,
    {
        let ghost t1 = t@;
        if alone {
            let h = heads[i];
            proof {
                let a = step_of(ns, h.0, h.1);
                assert(h == heads@[i as int]);
                let rho = seq![a] + flat_steps(ns, empty@);
                assert(rho =~= seq![a]);
                assert(k.puts(ns, e, Some(a)));
                assert(link(w.prog, ns[p as int], k.line, ns[k.src as int], ns[v as int], Some(a)));
                assert(hangs(w.prog, w.max, ns[p as int], ns[v as int], rho, k.line));
            }
            hang(t, y, k.line, Some(h), &empty, Ghost(w), Ghost(spots), Ghost(p), Ghost(v));
            proof {
                lemma_hung_kept(t1, t@, spots, spots, ns);
                assert(seq![step_of(ns, h.0, h.1)] + flat_steps(ns, empty@) =~= seq![
                    step_of(ns, h.0, h.1),
                ]);
            }
        }
        i += 1;
    }
    let ghost t2 = t@;
    // What it hangs in front of what reaches it.
    i = 0;
    while i < list.len()
        invariant
            i <= list@.len(),
            t.wf(),
            w.rows_ok(t@, spots),
            w.rows_ok(t0, spots),
            x < spots.len(),
            y < spots.len(),
            spots[x as int] == pair_row(p, k.src),
            spots[y as int] == pair_row(p, v),
            p == k.p,
            v == k.dst,
            ns == w.ns,
            e == w.prog@,
            max == w.max,
            k.ok(ns),
            k.kind == 0 ==> heads@.len() == 0,
            fronts(heads@, ns, e, *k),
            forall|acc: Option<Step>| #[trigger]
                k.puts(ns, e, acc) ==> link(
                    w.prog,
                    ns[k.p as int],
                    k.line,
                    ns[k.src as int],
                    ns[k.dst as int],
                    acc,
                ),
            forall|z: int|
                0 <= z < list@.len() ==> arrives(
                    t0,
                    w,
                    x,
                    p,
                    k.src,
                    k.line,
                    (#[trigger] list@[z])@,
                ),
            forall|row: Seq<usize>| t0.contains(row) ==> #[trigger] t@.contains(row),
            forall|row: Seq<usize>| t2.contains(row) ==> #[trigger] t@.contains(row),
            forall|row: Seq<usize>| #[trigger]
                t@.contains(row) && !t0.contains(row) ==> row.len() >= 2 && row[1] == k.line,
            forall|z: int, acc: Option<Step>|
                0 <= z < i && #[trigger] k.puts(ns, e, acc) && (acc is Some ==> under(
                    w.max,
                    flat_steps(ns, (#[trigger] list@[z])@).len() + 1,
                )) ==> hung(t@, spots, ns, p, v, k.line, longer(acc, flat_steps(ns, list@[z]@))),
        decreases list@.len() - i,
    {
        let f = &list[i];
        let ghost rho = flat_steps(ns, f@);
        let ghost t3 = t@;
        proof {
            assert(arrives(t0, w, x, p, k.src, k.line, list@[i as int]@));
            let m = choose|m: usize|
                k.line < m && w.open_between(p, k.src, k.line, m) && #[trigger] t0.contains(
                    hung_row(x, m, f@),
                );
            let row = hung_row(x, m, f@);
            assert(w.row_ok(row, spots));
            assert(row.skip(2) =~= f@);
            assert(row[0] == x && row[1] == m);
            assert(pair_row(p, k.src)[0] == p && pair_row(p, k.src)[1] == k.src);
            assert(hangs(w.prog, w.max, ns[p as int], ns[k.src as int], rho, m));
            assert(clear(w.prog, ns[p as int], ns[k.src as int], k.line, m));
            assert(reaches(w.prog, w.max, ns[p as int], ns[k.src as int], rho, k.line));
        }
        if k.kind == 0 {
            proof {
                assert(k.puts(ns, e, None));
                assert(link(w.prog, ns[p as int], k.line, ns[k.src as int], ns[v as int], None));
                assert(rho.len() > 0);
                assert(hangs(w.prog, w.max, ns[p as int], ns[v as int], rho, k.line));
            }
            hang(t, y, k.line, None, f, Ghost(w), Ghost(spots), Ghost(p), Ghost(v));
            proof {
                lemma_hung_kept(t3, t@, spots, spots, ns);
                assert forall|z: int, acc: Option<Step>|
                    0 <= z < i + 1 && #[trigger] k.puts(ns, e, acc) && (acc is Some ==> under(
                        w.max,
                        flat_steps(ns, (#[trigger] list@[z])@).len() + 1,
                    )) implies hung(
                    t@,
                    spots,
                    ns,
                    p,
                    v,
                    k.line,
                    longer(acc, flat_steps(ns, list@[z]@)),
                ) by {
                    if z < i {
                        assert(hung(
                            t3,
                            spots,
                            ns,
                            p,
                            v,
                            k.line,
                            longer(acc, flat_steps(ns, list@[z]@)),
                        ));
                    }
                }
            }
        } else {
            let fits = match max {
                Some(d) => f.len() / 2 < d,
                None => true,
            };
            let mut j: usize = 0;
            while j < heads.len()
                invariant
                    j <= heads@.len(),
                    i < list@.len(),
                    f == &list@[i as int],
                    rho == flat_steps(ns, f@),
                    rho.len() > 0,
                    flat_ok(ns, f@),
                    fits == under(w.max, rho.len() + 1),
                    reaches(w.prog, w.max, ns[p as int], ns[k.src as int], rho, k.line),
                    t.wf(),
                    w.rows_ok(t@, spots),
                    y < spots.len(),
                    spots[y as int] == pair_row(p, v),
                    p == k.p,
                    v == k.dst,
                    ns == w.ns,
                    e == w.prog@,
                    k.ok(ns),
                    fronts(heads@, ns, e, *k),
                    forall|acc: Option<Step>| #[trigger]
                        k.puts(ns, e, acc) ==> link(
                            w.prog,
                            ns[k.p as int],
                            k.line,
                            ns[k.src as int],
                            ns[k.dst as int],
                            acc,
                        ),
                    forall|row: Seq<usize>| t0.contains(row) ==> #[trigger] t@.contains(row),
                    forall|row: Seq<usize>| t2.contains(row) ==> #[trigger] t@.contains(row),
                    forall|row: Seq<usize>| t3.contains(row) ==> #[trigger] t@.contains(row),
                    forall|row: Seq<usize>| #[trigger]
                        t@.contains(row) && !t0.contains(row) ==> row.len() >= 2
                            && row[1] == k.line,
                    fits ==> forall|z: int|
                        0 <= z < j ==> hung(
                            t@,
                            spots,
                            ns,
                            p,
                            v,
                            k.line,
                            seq![step_of(ns, (#[trigger] heads@[z]).0, heads@[z].1)] + rho,
                        ),
                decreases heads@.len() - j,
            {
                let ghost t4 = t@;
                if fits {
                    let h = heads[j];
                    proof {
                        let a = step_of(ns, h.0, h.1);
                        assert(h == heads@[j as int]);
                        let far = seq![a] + rho;
                        assert(far[0] == a);
                        assert(far.drop_first() =~= rho);
                        assert(k.puts(ns, e, Some(a)));
                        assert(link(
                            w.prog,
                            ns[p as int],
                            k.line,
                            ns[k.src as int],
                            ns[v as int],
                            Some(a),
                        ));
                        assert(hangs(w.prog, w.max, ns[p as int], ns[v as int], far, k.line));
                    }
                    hang(t, y, k.line, Some(h), f, Ghost(w), Ghost(spots), Ghost(p), Ghost(v));
                    proof {
                        lemma_hung_kept(t4, t@, spots, spots, ns);
                    }
                }
                j += 1;
            }
            proof {
                lemma_hung_kept(t3, t@, spots, spots, ns);
                assert forall|z: int, acc: Option<Step>|
                    0 <= z < i + 1 && #[trigger] k.puts(ns, e, acc) && (acc is Some ==> under(
                        w.max,
                        flat_steps(ns, (#[trigger] list@[z])@).len() + 1,
                    )) implies hung(
                    t@,
                    spots,
                    ns,
                    p,
                    v,
                    k.line,
                    longer(acc, flat_steps(ns, list@[z]@)),
                ) by {
                    if z < i {
                        assert(hung(
                            t3,
                            spots,
                            ns,
                            p,
                            v,
                            k.line,
                            longer(acc, flat_steps(ns, list@[z]@)),
                        ));
                    } else {
                        let a = acc->0;
                        let q = choose|q: int|
                            0 <= q < heads@.len() && step_of(ns, (#[trigger] heads@[q]).0,
                                heads@[q].1)
                                == a;
                        assert(hung(
                            t@,
                            spots,
                            ns,
                            p,
                            v,
                            k.line,
                            seq![step_of(ns, heads@[q].0, heads@[q].1)] + rho,
                        ));
                    }
                }
            }
        }
        i += 1;
    }
    proof {
        lemma_hung_kept(t2, t@, spots, spots, ns);
        assert(w.done_alone(t@, spots, *k)) by {
            assert forall|a: Step| #[trigger]
                k.puts(ns, e, Some(a)) && under(w.max, 1) implies hung(
                t@,
                spots,
                ns,
                k.p,
                k.dst,
                k.line,
                seq![a],
            ) by {
                let q = choose|q: int|
                    0 <= q < heads@.len() && step_of(ns, (#[trigger] heads@[q]).0, heads@[q].1)
                        == a;
                assert(hung(
                    t2,
                    spots,
                    ns,
                    p,
                    v,
                    k.line,
                    seq![step_of(ns, heads@[q].0, heads@[q].1)],
                ));
            }
        }
        assert(w.done_further(t@, spots, *k)) by {
            assert forall|acc: Option<Step>, m: usize, rho: Seq<Step>|
                #[trigger] k.puts(ns, e, acc) && #[trigger] hung(t@, spots, ns, k.p, k.src, m, rho)
                    && k.line < m && w.open_between(k.p, k.src, k.line, m) && rho.len() > 0 && (
                acc is Some ==> under(w.max, rho.len() + 1)) implies hung(
                t@,
                spots,
                ns,
                k.p,
                k.dst,
                k.line,
                longer(acc, rho),
            ) by {
                let (x2, f) = choose|x2: usize, f: Seq<usize>|
                    x2 < spots.len() && spots[x2 as int] == pair_row(k.p, k.src)
                        && #[trigger] t@.contains(hung_row(x2, m, f)) && flat_ok(ns, f)
                        && flat_steps(ns, f) == rho;
                writes.spots.lemma_distinct();
                assert(x2 == x);
                let row = hung_row(x, m, f);
                assert(row[1] == m);
                assert(t0.contains(row));
                assert(listed(list@, f));
                let q = choose|q: int| 0 <= q < list@.len() && (#[trigger] list@[q])@ == f;
                assert(hung(
                    t@,
                    spots,
                    ns,
                    p,
                    v,
                    k.line,
                    longer(acc, flat_steps(ns, list@[q]@)),
                ));
            }
        }
    }
}

/// The accessors that a link puts in front.
fn heads_of(
    k: &Link,
    indices: &Vec<(usize, usize)>,
    Ghost(ns): Ghost<Seq<Name>>,
    Ghost(e): Ghost<Edb>,
) -> (r: Vec<(usize, usize)>)
    requires
        k.ok(ns),
        spells(indices@, ns, e),
    ensures
        fronts(r@, ns, e, *k),
        k.kind == 0 ==> r@.len() == 0,
{
    let mut r: Vec<(usize, usize)> = Vec::new();
    if k.kind == 1 {
        r.push((k.tag, k.n));
        proof {
            assert(step_of(ns, r@[0].0, r@[0].1) == step_of(ns, k.tag, k.n));
        }
    } else if k.kind != 0 {
        let mut i: usize = 0;
        while i < indices.len()
            invariant
                i <= indices@.len(),
                r@ == indices@.take(i as int),
            decreases indices@.len() - i,
        {
            r.push(indices[i]);
            proof {
                assert(indices@.take(i + 1) =~= indices@.take(i as int).push(indices@[i as int]));
            }
            i += 1;
        }
        proof {
            assert(indices@.take(i as int) =~= indices@);
            assert forall|a: Step| #[trigger] k.puts(ns, e, Some(a)) implies exists|i: int|
                0 <= i < r@.len() && step_of(ns, (#[trigger] r@[i]).0, r@[i].1) == a by {
                assert(decidable(e, a));
            }
        }
    }
    r
}

/// Later lines come first.
pub open spec fn line_key(k: Link) -> Seq<usize> {
    let rest = (usize::MAX - k.line) as usize;
    seq![rest]
}

/// Walk the links from the last line to the first.
pub fn collect(
    links: &Vec<Link>,
    indices: &Vec<(usize, usize)>,
    writes: &mut Writes,
    max: Option<usize>,
    Ghost(w): Ghost<Walk>,
) -> (t: Table)
    requires
        links_ok(links@, w.ns, w.prog),
        spells(indices@, w.ns, w.prog@),
        writes_ok(w, *old(writes)),
        w.ns.no_duplicates(),
        max == w.max,
    ensures
        t.wf(),
        w.rows_ok(t@, final(writes).spots@),
        forall|p: Name, v: Name, rho: Seq<Step>, l: Line| #[trigger]
            hangs(w.prog, w.max, p, v, rho, l) ==> exists|row: Seq<usize>| #[trigger]
                t@.contains(row) && flat_steps(w.ns, row.skip(2)) == rho,
{
    let mut keys: Vec<Vec<usize>> = Vec::new();
    let mut i: usize = 0;
    while i < links.len()
        invariant
            i <= links@.len(),
            keys@.len() == i,
            forall|j: int|
                0 <= j < i ==> (#[trigger] keys@[j])@ == line_key(links@[j]),
        decreases links@.len() - i,
    {
        let line: usize = links[i].line;
        let rest: usize = usize::MAX - line;
        let key: Vec<usize> = vec![rest];
        proof {
            assert(key@ =~= line_key(links@[i as int]));
        }
        keys.push(key);
        i += 1;
    }
    let list = sort(&keys);
    let mut t = Table::new();
    let ghost ks = keys@;
    proof {
        assert forall|a: int, b: int| 0 <= a < b < list@.len()
            implies links@[#[trigger] list@[b] as int].line
            <= links@[#[trigger] list@[a] as int].line by {
            let x = ks[list@[b] as int]@;
            let y = ks[list@[a] as int]@;
            assert(!before(x, y));
            if links@[list@[b] as int].line > links@[list@[a] as int].line {
                assert(parts_at(x, y, 0));
            }
        }
    }
    i = 0;
    while i < list.len()
        invariant
            i <= list@.len(),
            links_ok(links@, w.ns, w.prog),
            spells(indices@, w.ns, w.prog@),
            w.ns.no_duplicates(),
            max == w.max,
            spans(list@, 0, links@.len() as int),
            forall|a: int, b: int|
                0 <= a < b < list@.len() ==> links@[#[trigger] list@[b] as int].line
                    <= links@[#[trigger] list@[a] as int].line,
            writes_ok(w, *writes),
            t.wf(),
            w.rows_ok(t@, writes.spots@),
            forall|z: int|
                0 <= z < i ==> w.done(t@, writes.spots@, links@[#[trigger] list@[z] as int]),
        decreases list@.len() - i,
    {
        let ghost t0 = t@;
        let ghost s0 = writes.spots@;
        let x: usize = list[i];
        let k: Link = links[x];
        proof {
            assert(links@[x as int].ok(w.ns));
        }
        let heads = heads_of(&k, indices, Ghost(w.ns), Ghost(w.prog@));
        walk_link(&mut t, writes, &k, &heads, max, Ghost(w));
        proof {
            assert forall|z: int| 0 <= z < i + 1 implies w.done(
                t@,
                writes.spots@,
                links@[#[trigger] list@[z] as int],
            ) by {
                if z < i {
                    let j = links@[list@[z] as int];
                    assert(w.done(t0, s0, j));
                    assert(links@[list@[i as int] as int].line <= j.line);
                    lemma_done_kept(w, t0, t@, s0, writes.spots@, j, k.line);
                }
            }
        }
        i += 1;
    }
    proof {
        let spots = writes.spots@;
        assert forall|j: int| 0 <= j < links@.len()
            implies w.done(t@, spots, #[trigger] links@[j]) by {
            assert(list@.contains(j as usize));
            let z = choose|z: int| 0 <= z < list@.len() && list@[z] == j as usize;
            assert(w.done(t@, spots, links@[list@[z] as int]));
        }
        assert forall|p: Name, v: Name, rho: Seq<Step>, l: Line| #[trigger]
            hangs(w.prog, w.max, p, v, rho, l) implies exists|row: Seq<usize>| #[trigger]
            t@.contains(row) && flat_steps(w.ns, row.skip(2)) == rho by {
            let (pn, vn) = lemma_hung(w, t@, spots, links@, p, v, rho, l);
            let (x, f) = choose|x: usize, f: Seq<usize>|
                x < spots.len() && spots[x as int] == pair_row(pn, vn) && #[trigger] t@.contains(
                    hung_row(x, l, f),
                ) && flat_ok(w.ns, f) && flat_steps(w.ns, f) == rho;
            let row = hung_row(x, l, f);
            assert(row.skip(2) =~= f);
        }
    }
    t
}

/// Once every link is done, whatever hangs is there.
proof fn lemma_hung(
    w: Walk,
    t: Seq<Seq<usize>>,
    spots: Seq<Seq<usize>>,
    links: Seq<Link>,
    p: Name,
    v: Name,
    rho: Seq<Step>,
    l: Line,
) -> (r: (usize, usize))
    requires
        links_ok(links, w.ns, w.prog),
        w.ns.no_duplicates(),
        forall|j: int| 0 <= j < links.len() ==> w.done(t, spots, #[trigger] links[j]),
        hangs(w.prog, w.max, p, v, rho, l),
    ensures
        r.0 < w.ns.len(),
        r.1 < w.ns.len(),
        w.ns[r.0 as int] == p,
        w.ns[r.1 as int] == v,
        hung(t, spots, w.ns, r.0, r.1, l, rho),
    decreases usize::MAX - l,
{
    let ns = w.ns;
    let e = w.prog@;
    let (src, acc) = choose|src: Name, acc: Option<Step>| #[trigger]
        link(w.prog, p, l, src, v, acc) && match acc {
            None => reaches(w.prog, w.max, p, src, rho, l),
            Some(a) => {
                &&& rho[0] == a
                &&& under(w.max, rho.len())
                &&& rho.len() == 1 || reaches(w.prog, w.max, p, src, rho.drop_first(), l)
            },
        };
    assert(has_link(links, ns, e, p, l, src, v, acc));
    let i = choose|i: int|
        0 <= i < links.len() && stands_for(#[trigger] links[i], ns, p, l, src, v) && links[i].puts(
            ns,
            e,
            acc,
        );
    let k = links[i];
    assert(k.ok(ns));
    assert(w.done(t, spots, links[i]));
    let tail = match acc {
        None => rho,
        Some(_) => rho.drop_first(),
    };
    if acc is Some && rho.len() == 1 {
        assert(rho =~= seq![acc->0]);
    } else {
        let m = choose|m: Line|
            l < m && hangs(w.prog, w.max, p, src, tail, m) && #[trigger] clear(
                w.prog,
                p,
                src,
                l,
                m,
            );
        let (pn, sn) = lemma_hung(w, t, spots, links, p, src, tail, m);
        assert(pn == k.p && sn == k.src);
        assert(hung(t, spots, ns, k.p, k.src, m, tail));
        assert(w.open_between(k.p, k.src, k.line, m));
        assert(tail.len() > 0);
        assert(hung(t, spots, ns, k.p, k.dst, k.line, longer(acc, tail)));
        assert(longer(acc, tail) =~= rho);
    }
    (k.p, k.dst)
}

} // verus!
