//! Class hierarchy analysis: which implementation a receiver's class inherits, and
//! which classes a receiver of a declared class may have.
use vstd::prelude::*;

use crate::codes::Names;
use crate::ir::Name;
use crate::rows::{self, Datum, Row};

verus! {

// ---------------------------------------------------------------------------
// What is declared and what is inherited
// ---------------------------------------------------------------------------

/// Where the rows have `key` in column `col`, in order.
pub open spec fn spots(rows: Seq<Seq<Datum>>, col: int, key: Name) -> Seq<usize>
    decreases rows.len(),
{
    if rows.len() == 0 {
        Seq::empty()
    } else {
        let rest = spots(rows.drop_last(), col, key);
        if rows.last()[col].text() == key {
            rest.push((rows.len() - 1) as usize)
        } else {
            rest
        }
    }
}

/// What a class is listed to extend, in order.
pub open spec fn parents(edges: Seq<Seq<Datum>>, t: Name) -> Seq<Name> {
    Seq::new(spots(edges, 0, t).len(), |i: int| edges[spots(edges, 0, t)[i] as int][1].text())
}

/// The class at the end of a climb that takes the parent of each number in turn.
pub open spec fn climb(edges: Seq<Seq<Datum>>, t: Name, path: Seq<nat>) -> Option<Name>
    decreases path.len(),
{
    if path.len() == 0 {
        Some(t)
    } else {
        match climb(edges, t, path.drop_last()) {
            Some(c) => if path.last() < parents(edges, c).len() {
                Some(parents(edges, c)[path.last() as int])
            } else {
                None
            },
            None => None,
        }
    }
}

/// A receiver declared `t` may have class `c`: `c` is `t`, or extends it in some number
/// of steps.
pub open spec fn below(edges: Seq<Seq<Datum>>, t: Name, c: Name) -> bool {
    exists|path: Seq<nat>| #[trigger] climb(edges, c, path) == Some(t)
}

/// Row `i` declares an implementation.
pub open spec fn declares_at(
    decls: Seq<Seq<Datum>>,
    i: int,
    cls: Name,
    name: Name,
    desc: Name,
) -> bool {
    0 <= i < decls.len() && decls[i][0].text() == cls && decls[i][1].text() == name
        && decls[i][2].text() == desc
}

/// No later row declares it again.
pub open spec fn stands_at(
    decls: Seq<Seq<Datum>>,
    i: int,
    cls: Name,
    name: Name,
    desc: Name,
) -> bool {
    declares_at(decls, i, cls, name, desc) && forall|j: int|
        i < j ==> !declares_at(decls, j, cls, name, desc)
}

/// The implementation that a class itself declares; the last declaration stands.
pub open spec fn declared(decls: Seq<Seq<Datum>>, cls: Name, name: Name, desc: Name)
    -> Option<Name> {
    if exists|i: int| stands_at(decls, i, cls, name, desc) {
        Some(decls[choose|i: int| stands_at(decls, i, cls, name, desc)][3].text())
    } else {
        None
    }
}

/// The climb is shorter, or of the same length and turns off to an earlier parent.
pub open spec fn ahead(a: Seq<nat>, b: Seq<nat>) -> bool {
    a.len() < b.len() || a.len() == b.len() && exists|k: int| #[trigger] turns(a, b, k)
}

/// The climbs part at step `k`, the first towards the earlier parent.
pub open spec fn turns(a: Seq<nat>, b: Seq<nat>, k: int) -> bool {
    &&& 0 <= k < a.len()
    &&& k < b.len()
    &&& a[k] < b[k]
    &&& forall|j: int| 0 <= j < k ==> a[j] == b[j]
}

/// The climb ends at a class that declares the method.
pub open spec fn finds(
    decls: Seq<Seq<Datum>>,
    edges: Seq<Seq<Datum>>,
    t: Name,
    name: Name,
    desc: Name,
    path: Seq<nat>,
) -> bool {
    climb(edges, t, path) matches Some(c) && declared(decls, c, name, desc) is Some
}

/// The climb finds the method, and is ahead of every other that does.
pub open spec fn nearest(
    decls: Seq<Seq<Datum>>,
    edges: Seq<Seq<Datum>>,
    t: Name,
    name: Name,
    desc: Name,
    path: Seq<nat>,
) -> bool {
    &&& finds(decls, edges, t, name, desc, path)
    &&& forall|other: Seq<nat>| #[trigger]
        finds(decls, edges, t, name, desc, other) ==> other == path || ahead(path, other)
}

/// The implementation that a receiver of class `t` has: the one declared the fewest
/// steps up, and of several there the one whose class is listed first, so that a
/// superclass comes before an interface.
pub open spec fn inherited(
    decls: Seq<Seq<Datum>>,
    edges: Seq<Seq<Datum>>,
    t: Name,
    name: Name,
    desc: Name,
) -> Option<Name> {
    if exists|path: Seq<nat>| nearest(decls, edges, t, name, desc, path) {
        declared(
            decls,
            climb(
                edges,
                t,
                choose|path: Seq<nat>| nearest(decls, edges, t, name, desc, path),
            )->0,
            name,
            desc,
        )
    } else {
        None
    }
}

// ---------------------------------------------------------------------------
// Facts about climbs
// ---------------------------------------------------------------------------

proof fn lemma_spots(rows: Seq<Seq<Datum>>, col: int, key: Name)
    requires
        rows.len() <= usize::MAX,
    ensures
        forall|j: int|
            0 <= j < spots(rows, col, key).len() ==> (#[trigger] spots(rows, col, key)[j])
                < rows.len() && rows[spots(rows, col, key)[j] as int][col].text() == key,
        forall|i: int|
            0 <= i < rows.len() && (#[trigger] rows[i])[col].text() == key ==> spots(
                rows,
                col,
                key,
            ).contains(i as usize),
        forall|i: int, j: int|
            0 <= i < j < spots(rows, col, key).len() ==> (#[trigger] spots(rows, col, key)[i])
                < (#[trigger] spots(rows, col, key)[j]),
    decreases rows.len(),
{
    if rows.len() > 0 {
        let rest = rows.drop_last();
        lemma_spots(rest, col, key);
        let (s, r) = (spots(rows, col, key), spots(rest, col, key));
        assert forall|i: int|
            0 <= i < rows.len() && (#[trigger] rows[i])[col].text() == key implies s.contains(
            i as usize,
        ) by {
            if i < rest.len() {
                assert(rest[i] == rows[i]);
                let j = choose|j: int| 0 <= j < r.len() && r[j] == i as usize;
                assert(s[j] == i as usize);
            } else {
                assert(s[r.len() as int] == i as usize);
            }
        }
    }
}

/// A climb in two parts.
proof fn lemma_climb_parts(edges: Seq<Seq<Datum>>, t: Name, a: Seq<nat>, b: Seq<nat>)
    ensures
        climb(edges, t, a + b) == (match climb(edges, t, a) {
            Some(c) => climb(edges, c, b),
            None => None,
        }),
    decreases b.len(),
{
    if b.len() == 0 {
        assert(a + b =~= a);
    } else {
        lemma_climb_parts(edges, t, a, b.drop_last());
        assert((a + b).drop_last() =~= a + b.drop_last());
        assert((a + b).last() == b.last());
    }
}

proof fn lemma_ahead_transitive(a: Seq<nat>, b: Seq<nat>, c: Seq<nat>)
    requires
        ahead(a, b),
        ahead(b, c),
    ensures
        ahead(a, c),
{
    if a.len() == b.len() && b.len() == c.len() {
        let k = choose|k: int| #[trigger] turns(a, b, k);
        let m = choose|m: int| #[trigger] turns(b, c, m);
        let n = if k < m {
            k
        } else {
            m
        };
        assert(turns(a, c, n));
    }
}

proof fn lemma_ahead_extended(a: Seq<nat>, b: Seq<nat>, x: Seq<nat>)
    requires
        ahead(a, b),
    ensures
        ahead(a + x, b + x),
{
    if a.len() == b.len() {
        let k = choose|k: int| #[trigger] turns(a, b, k);
        assert(turns(a + x, b + x, k));
    }
}

proof fn lemma_ahead_pushed(a: Seq<nat>, b: Seq<nat>, i: nat, j: nat)
    requires
        ahead(a, b) || a == b && i < j,
    ensures
        ahead(a.push(i), b.push(j)),
{
    if a == b {
        assert(turns(a.push(i), b.push(j), a.len() as int));
    } else if a.len() == b.len() {
        let k = choose|k: int| #[trigger] turns(a, b, k);
        assert(turns(a.push(i), b.push(j), k));
    }
}

proof fn lemma_ahead_irreflexive(a: Seq<nat>)
    ensures
        !ahead(a, a),
{
}

// ---------------------------------------------------------------------------
// The search upwards
// ---------------------------------------------------------------------------

/// Each class of the queue stands at the end of its climb.
spec fn reached(e: Seq<Seq<Datum>>, t: Name, queue: Seq<Name>, paths: Seq<Seq<nat>>) -> bool {
    &&& paths.len() == queue.len()
    &&& queue.len() > 0
    &&& paths[0] == Seq::<nat>::empty()
    &&& forall|j: int| 0 <= j < queue.len() ==> climb(e, t, #[trigger] paths[j]) == Some(queue[j])
}

/// The climbs come in order.
spec fn sorted(paths: Seq<Seq<nat>>) -> bool {
    forall|a: int, b: int|
        0 <= a < b < paths.len() ==> ahead(#[trigger] paths[a], #[trigger] paths[b])
}

/// Climb `b` takes one step more than one of the first `h`.
spec fn stems(paths: Seq<Seq<nat>>, b: int, h: int) -> bool {
    paths[b].len() > 0 && exists|j: int|
        0 <= j < h && j < paths.len() && #[trigger] paths[j] == paths[b].drop_last()
}

spec fn stemmed(paths: Seq<Seq<nat>>, h: int) -> bool {
    forall|b: int| 0 < b < paths.len() ==> #[trigger] stems(paths, b, h)
}

/// The `k`-th parent of class `j` is in the queue, by no later a climb than through `j`.
spec fn led(e: Seq<Seq<Datum>>, queue: Seq<Name>, paths: Seq<Seq<nat>>, j: int, k: int) -> bool {
    exists|b: int|
        0 <= b < queue.len() && queue[b] == parents(e, queue[j])[k] && (#[trigger] paths[b]
            == paths[j].push(k as nat) || ahead(paths[b], paths[j].push(k as nat)))
}

/// The parents of the first `h` classes are in the queue.
spec fn expanded(e: Seq<Seq<Datum>>, queue: Seq<Name>, paths: Seq<Seq<nat>>, h: int) -> bool {
    forall|j: int, k: int|
        0 <= j < h && 0 <= k < parents(e, queue[j]).len() ==> #[trigger] led(e, queue, paths, j, k)
}

/// The steps taken from class `h` so far go to its first `i` parents.
spec fn fresh(paths: Seq<Seq<nat>>, h: int, i: int) -> bool {
    forall|b: int|
        0 <= b < paths.len() && (#[trigger] paths[b]).len() > 0 && paths[b].drop_last() == paths[h]
            ==> paths[b].last() < i
}

proof fn lemma_fresh_start(paths: Seq<Seq<nat>>, h: int)
    requires
        sorted(paths),
        stemmed(paths, h),
        0 <= h < paths.len(),
        paths[0].len() == 0,
    ensures
        fresh(paths, h, 0),
{
    assert forall|b: int|
        0 <= b < paths.len() && (#[trigger] paths[b]).len() > 0 && paths[b].drop_last()
            == paths[h] implies paths[b].last() < 0 by {
        assert(stems(paths, b, h));
        let j = choose|j: int|
            0 <= j < h && j < paths.len() && #[trigger] paths[j] == paths[b].drop_last();
        assert(ahead(paths[j], paths[h]));
        lemma_ahead_irreflexive(paths[h]);
    }
}

/// Every climb of the queue is ahead of the next step from class `h`.
proof fn lemma_next_is_last(paths: Seq<Seq<nat>>, h: int, i: nat, b: int)
    requires
        sorted(paths),
        stemmed(paths, h + 1),
        fresh(paths, h, i as int),
        0 <= h < paths.len(),
        0 <= b < paths.len(),
    ensures
        ahead(paths[b], paths[h].push(i)),
{
    let next = paths[h].push(i);
    assert(ahead(paths[h], next));
    if b < h {
        assert(ahead(paths[b], paths[h]));
        lemma_ahead_transitive(paths[b], paths[h], next);
    } else if b > h {
        assert(stems(paths, b, h + 1));
        let j = choose|j: int|
            0 <= j < h + 1 && j < paths.len() && #[trigger] paths[j] == paths[b].drop_last();
        assert(paths[b] =~= paths[j].push(paths[b].last()));
        if j < h {
            assert(ahead(paths[j], paths[h]));
        }
        lemma_ahead_pushed(paths[j], paths[h], paths[b].last(), i);
    }
}

proof fn lemma_search_grows(
    e: Seq<Seq<Datum>>,
    t: Name,
    queue: Seq<Name>,
    paths: Seq<Seq<nat>>,
    h: int,
    i: nat,
)
    requires
        reached(e, t, queue, paths),
        sorted(paths),
        stemmed(paths, h + 1),
        expanded(e, queue, paths, h),
        fresh(paths, h, i as int),
        forall|k: int| 0 <= k < i ==> #[trigger] led(e, queue, paths, h, k),
        0 <= h < queue.len(),
        i < parents(e, queue[h]).len(),
    ensures
        ({
            let q = queue.push(parents(e, queue[h])[i as int]);
            let p = paths.push(paths[h].push(i));
            &&& reached(e, t, q, p)
            &&& sorted(p)
            &&& stemmed(p, h + 1)
            &&& expanded(e, q, p, h)
            &&& fresh(p, h, i as int + 1)
            &&& forall|k: int| 0 <= k < i + 1 ==> #[trigger] led(e, q, p, h, k)
        }),
{
    let next = paths[h].push(i);
    let q = queue.push(parents(e, queue[h])[i as int]);
    let p = paths.push(next);
    let n = paths.len() as int;
    assert(next.drop_last() =~= paths[h]);
    assert(climb(e, t, paths[h]) == Some(queue[h]));
    assert(reached(e, t, q, p)) by {
        assert forall|j: int| 0 <= j < q.len() implies climb(e, t, #[trigger] p[j]) == Some(
            q[j],
        ) by {
            if j < n {
                assert(p[j] == paths[j]);
            }
        }
    }
    assert forall|a: int, b: int| 0 <= a < b < p.len() implies ahead(
        #[trigger] p[a],
        #[trigger] p[b],
    ) by {
        if b == n {
            lemma_next_is_last(paths, h, i, a);
        } else {
            assert(ahead(paths[a], paths[b]));
        }
    }
    assert forall|b: int| 0 < b < p.len() implies #[trigger] stems(p, b, h + 1) by {
        if b < n {
            assert(stems(paths, b, h + 1));
            let j = choose|j: int|
                0 <= j < h + 1 && j < paths.len() && #[trigger] paths[j] == paths[b].drop_last();
            assert(p[j] == p[b].drop_last());
        } else {
            assert(p[h] == p[b].drop_last());
        }
    }
    assert forall|j: int, k: int|
        0 <= j < h + 1 && 0 <= k < parents(e, q[j]).len() && (j < h || k <= i)
            implies #[trigger] led(
        e,
        q,
        p,
        j,
        k,
    ) by {
        if j == h && k == i {
            assert(p[n] == p[j].push(k as nat));
        } else {
            assert(led(e, queue, paths, j, k));
            let b = choose|b: int|
                0 <= b < queue.len() && queue[b] == parents(e, queue[j])[k] && (#[trigger] paths[b]
                    == paths[j].push(k as nat) || ahead(paths[b], paths[j].push(k as nat)));
            assert(p[b] == paths[b]);
            assert(q[b] == queue[b]);
        }
    }
    assert forall|b: int|
        0 <= b < p.len() && (#[trigger] p[b]).len() > 0 && p[b].drop_last() == p[h]
            implies p[b].last()
        < i + 1 by {
        if b < n {
            assert(paths[b].drop_last() == paths[h]);
        }
    }
}

/// A climb that finds the method does not come before the queue's next one.
proof fn lemma_cover(
    d: Seq<Seq<Datum>>,
    e: Seq<Seq<Datum>>,
    t: Name,
    name: Name,
    desc: Name,
    queue: Seq<Name>,
    paths: Seq<Seq<nat>>,
    h: int,
    j: int,
    rest: Seq<nat>,
)
    requires
        reached(e, t, queue, paths),
        sorted(paths),
        expanded(e, queue, paths, h),
        forall|q: int| 0 <= q < h ==> declared(d, #[trigger] queue[q], name, desc) is None,
        0 <= h <= queue.len(),
        0 <= j < queue.len(),
        finds(d, e, t, name, desc, paths[j] + rest),
    ensures
        h < queue.len(),
        paths[h] == paths[j] + rest || ahead(paths[h], paths[j] + rest),
    decreases rest.len(),
{
    let whole = paths[j] + rest;
    lemma_climb_parts(e, t, paths[j], rest);
    assert(climb(e, t, paths[j]) == Some(queue[j]));
    if rest.len() == 0 {
        assert(whole =~= paths[j]);
    }
    if j >= h {
        if j > h {
            assert(ahead(paths[h], paths[j]));
        }
        if rest.len() > 0 {
            assert(ahead(paths[j], whole));
            if j > h {
                lemma_ahead_transitive(paths[h], paths[j], whole);
            }
        }
    } else {
        assert(declared(d, queue[j], name, desc) is None);
        assert(rest.len() > 0);
        let k = rest[0];
        let tail = rest.drop_first();
        let one = seq![k];
        assert(rest =~= one + tail);
        lemma_climb_parts(e, queue[j], one, tail);
        assert(one.drop_last() =~= Seq::<nat>::empty());
        assert(climb(e, queue[j], one.drop_last()) == Some(queue[j]));
        assert(k < parents(e, queue[j]).len());
        assert(led(e, queue, paths, j, k as int));
        let b = choose|b: int|
            0 <= b < queue.len() && queue[b] == parents(e, queue[j])[k as int] && (
            #[trigger] paths[b] == paths[j].push(k) || ahead(paths[b], paths[j].push(k)));
        assert(climb(e, t, paths[b]) == Some(queue[b]));
        lemma_climb_parts(e, t, paths[b], tail);
        lemma_cover(d, e, t, name, desc, queue, paths, h, b, tail);
        assert(paths[j].push(k) + tail =~= whole);
        if paths[b] != paths[j].push(k) {
            lemma_ahead_extended(paths[b], paths[j].push(k), tail);
            if paths[h] != paths[b] + tail {
                lemma_ahead_transitive(paths[h], paths[b] + tail, whole);
            }
        }
    }
}

/// The names that can come up in a search from `t`: itself and what column `col` holds.
spec fn reachable(e: Seq<Seq<Datum>>, col: int, t: Name) -> Set<Name> {
    e.map_values(|row: Seq<Datum>| row[col].text()).to_set().insert(t)
}

proof fn lemma_reachable(e: Seq<Seq<Datum>>, col: int, t: Name, names: Seq<Name>)
    requires
        names.no_duplicates(),
        forall|i: int| 0 <= i < names.len() ==> reachable(e, col, t).contains(#[trigger] names[i]),
    ensures
        names.len() <= reachable(e, col, t).len(),
{
    let all = reachable(e, col, t);
    let list = e.map_values(|row: Seq<Datum>| row[col].text());
    vstd::seq_lib::seq_to_set_is_finite(list);
    assert(all.finite());
    names.unique_seq_to_set();
    assert(names.to_set().subset_of(all)) by {
        assert forall|x: Name| names.to_set().contains(x) implies all.contains(x) by {
            let i = choose|i: int| 0 <= i < names.len() && names[i] == x;
            assert(all.contains(names[i]));
        }
    }
    vstd::set_lib::lemma_len_subset(names.to_set(), all);
}

proof fn lemma_column_is_reachable(e: Seq<Seq<Datum>>, col: int, t: Name, i: int)
    requires
        0 <= i < e.len(),
    ensures
        reachable(e, col, t).contains(e[i][col].text()),
{
    let list = e.map_values(|row: Seq<Datum>| row[col].text());
    assert(list[i] == e[i][col].text());
    assert(list.to_set().contains(list[i]));
}

proof fn lemma_fit(v: Seq<Row>, shape: Seq<bool>)
    requires
        rows::all_fit(rows::views(v), shape),
    ensures
        forall|i: int| 0 <= i < v.len() ==> rows::fits((#[trigger] v[i])@, shape),
{
    assert forall|i: int| 0 <= i < v.len() implies rows::fits((#[trigger] v[i])@, shape) by {
        assert(rows::views(v)[i] == v[i]@);
    }
}

proof fn lemma_texts(row: Seq<Datum>, n: nat)
    requires
        n == 2 && rows::fits(row, rows::two_shape()) || n == 4
            && rows::fits(row, rows::four_shape()),
    ensures
        row.len() == n,
        forall|c: int| 0 <= c < n ==> (#[trigger] row[c]).is_text(),
{
}

// ---------------------------------------------------------------------------
// Looking things up
// ---------------------------------------------------------------------------

/// Where the rows of a list have each text in one column.
struct Index {
    names: Names,
    lists: Vec<Vec<usize>>,
}

impl Index {
    spec fn wf(&self, rows: Seq<Seq<Datum>>, col: int) -> bool {
        &&& self.names.wf()
        &&& self.lists@.len() == self.names@.len()
        &&& forall|c: int|
            0 <= c < self.lists@.len() ==> (#[trigger] self.lists@[c])@ == spots(
                rows,
                col,
                self.names@[c],
            )
        &&& forall|key: Name|
            !self.names@.contains(key) ==> #[trigger] spots(rows, col, key).len() == 0
    }

    fn over(rows: &Vec<Row>, col: usize) -> (r: Self)
        requires
            forall|i: int|
                0 <= i < rows@.len() ==> col < (#[trigger] rows@[i])@.len()
                    && rows@[i]@[col as int].is_text(),
        ensures
            r.wf(rows::views(rows@), col as int),
    {
        let ghost all = rows::views(rows@);
        let mut names = Names::new();
        let mut lists: Vec<Vec<usize>> = Vec::new();
        let mut i: usize = 0;
        while i < rows.len()
            invariant
                i <= rows@.len(),
                all == rows::views(rows@),
                forall|i: int|
                    0 <= i < rows@.len() ==> col < (#[trigger] rows@[i])@.len()
                        && rows@[i]@[col as int].is_text(),
                (Index { names, lists }).wf(all.take(i as int), col as int),
            decreases rows@.len() - i,
        {
            let ghost before = Index { names, lists };
            let ghost t = all.take(i + 1);
            proof {
                assert(t.drop_last() =~= all.take(i as int));
                assert(t.last() == all[i as int]);
                assert(all[i as int] == rows@[i as int]@);
            }
            let key = rows[i].text(col);
            let n: usize = names.len();
            let c: usize = names.number(key);
            proof {
                names.lemma_distinct();
            }
            if c == n {
                let mut fresh: Vec<usize> = Vec::new();
                fresh.push(i);
                lists.push(fresh);
                proof {
                    assert(!before.names@.contains(key@));
                    assert(spots(all.take(i as int), col as int, key@) =~= Seq::empty());
                    assert(lists@[c as int]@ =~= spots(t, col as int, key@));
                }
            } else {
                proof {
                    if !before.names@.contains(key@) {
                        assert(names@[c as int] == before.names@[c as int]);
                    }
                }
                lists[c].push(i);
            }
            proof {
                assert forall|d: int| 0 <= d < lists@.len()
                    implies (#[trigger] lists@[d])@ == spots(
                    t,
                    col as int,
                    names@[d],
                ) by {
                    if d != c {
                        assert(lists@[d]@ == before.lists@[d]@);
                        assert(names@[d] != names@[c as int]);
                    }
                }
                assert forall|k: Name| !names@.contains(k) implies #[trigger] spots(
                    t,
                    col as int,
                    k,
                ).len() == 0 by {
                    if before.names@.contains(k) {
                        let d = choose|d: int| 0 <= d < before.names@.len()
                            && before.names@[d] == k;
                        assert(names@[d] == k);
                    }
                    assert(names@[c as int] == key@);
                    assert(names@.contains(key@));
                    assert(spots(all.take(i as int), col as int, k).len() == 0);
                }
            }
            i += 1;
        }
        proof {
            assert(all.take(i as int) =~= all);
        }
        Index { names, lists }
    }

    fn at(&self, key: &String, Ghost(rows): Ghost<Seq<Seq<Datum>>>, Ghost(col): Ghost<int>) -> (r:
        Option<&Vec<usize>>)
        requires
            self.wf(rows, col),
        ensures
            match r {
                Some(list) => list@ == spots(rows, col, key@),
                None => spots(rows, col, key@).len() == 0,
            },
    {
        match self.names.find(key) {
            Some(c) => Some(&self.lists[c]),
            None => None,
        }
    }
}

/// The classes of some imports: what they declare and what they extend.
pub struct Hierarchy {
    decls: Vec<Row>,
    edges: Vec<Row>,
    by_class: Index,
    by_name: Index,
    upward: Index,
    downward: Index,
}

impl Hierarchy {
    /// The declarations, in order.
    pub closed spec fn decls(&self) -> Seq<Seq<Datum>> {
        rows::views(self.decls@)
    }

    /// What extends what, in order.
    pub closed spec fn edges(&self) -> Seq<Seq<Datum>> {
        rows::views(self.edges@)
    }

    pub closed spec fn wf(&self) -> bool {
        &&& rows::all_fit(self.decls(), rows::four_shape())
        &&& rows::all_fit(self.edges(), rows::two_shape())
        &&& self.by_class.wf(self.decls(), 0)
        &&& self.by_name.wf(self.decls(), 1)
        &&& self.upward.wf(self.edges(), 0)
        &&& self.downward.wf(self.edges(), 1)
    }

    pub fn new(decls: Vec<Row>, edges: Vec<Row>) -> (r: Self)
        requires
            rows::all_fit(rows::views(decls@), rows::four_shape()),
            rows::all_fit(rows::views(edges@), rows::two_shape()),
        ensures
            r.wf(),
            r.decls() == rows::views(decls@),
            r.edges() == rows::views(edges@),
    {
        proof {
            lemma_fit(decls@, rows::four_shape());
            lemma_fit(edges@, rows::two_shape());
        }
        proof {
            assert forall|i: int| 0 <= i < decls@.len() implies (#[trigger] decls@[i])@.len() == 4
                && decls@[i]@[0].is_text() && decls@[i]@[1].is_text() by {
                lemma_texts(decls@[i]@, 4);
            }
            assert forall|i: int| 0 <= i < edges@.len() implies (#[trigger] edges@[i])@.len() == 2
                && edges@[i]@[0].is_text() && edges@[i]@[1].is_text() by {
                lemma_texts(edges@[i]@, 2);
            }
        }
        let by_class = Index::over(&decls, 0);
        let by_name = Index::over(&decls, 1);
        let upward = Index::over(&edges, 0);
        let downward = Index::over(&edges, 1);
        Hierarchy { decls, edges, by_class, by_name, upward, downward }
    }

    proof fn lemma_columns(&self)
        requires
            self.wf(),
        ensures
            forall|i: int|
                0 <= i < self.decls@.len() ==> rows::fits(
                    (#[trigger] self.decls@[i])@,
                    rows::four_shape(),
                ),
            forall|i: int|
                0 <= i < self.edges@.len() ==> rows::fits(
                    (#[trigger] self.edges@[i])@,
                    rows::two_shape(),
                ),
            self.decls@.len() <= usize::MAX,
            self.edges@.len() <= usize::MAX,
    {
        lemma_fit(self.decls@, rows::four_shape());
        lemma_fit(self.edges@, rows::two_shape());
        assert(self.decls.len() == self.decls@.len());
        assert(self.edges.len() == self.edges@.len());
    }

    /// The implementation that a class itself declares.
    fn find_declared(&self, cls: &String, name: &String, desc: &String) -> (r: Option<String>)
        requires
            self.wf(),
        ensures
            match r {
                Some(p) => declared(self.decls(), cls@, name@, desc@) == Some(p@),
                None => declared(self.decls(), cls@, name@, desc@) is None,
            },
    {
        let ghost d = self.decls();
        proof {
            self.lemma_columns();
            lemma_spots(d, 0, cls@);
        }
        match self.by_class.at(cls, Ghost(d), Ghost(0)) {
            None => {
                proof {
                    assert forall|i: int| !stands_at(d, i, cls@, name@, desc@) by {
                        if declares_at(d, i, cls@, name@, desc@) {
                            assert(spots(d, 0, cls@).contains(i as usize));
                        }
                    }
                }
                None
            },
            Some(list) => {
                let mut i: usize = list.len();
                while i > 0
                    invariant
                        i <= list@.len(),
                        d == self.decls(),
                        self.wf(),
                        list@ == spots(d, 0, cls@),
                        forall|j: int|
                            0 <= j < list@.len() ==> (#[trigger] list@[j]) < d.len()
                                && d[list@[j] as int][0].text() == cls@,
                        forall|j: int|
                            i <= j < list@.len() ==> !declares_at(
                                d,
                                (#[trigger] list@[j]) as int,
                                cls@,
                                name@,
                                desc@,
                            ),
                    decreases i,
                {
                    i -= 1;
                    let at: usize = list[i];
                    proof {
                        self.lemma_columns();
                        assert(d[at as int] == self.decls@[at as int]@);
                        lemma_texts(d[at as int], 4);
                    }
                    if *self.decls[at].text(1) == *name && *self.decls[at].text(2) == *desc {
                        proof {
                            lemma_spots(d, 0, cls@);
                            assert(stands_at(d, at as int, cls@, name@, desc@)) by {
                                assert forall|j: int| at < j implies !declares_at(
                                    d,
                                    j,
                                    cls@,
                                    name@,
                                    desc@,
                                ) by {
                                    if declares_at(d, j, cls@, name@, desc@) {
                                        assert(list@.contains(j as usize));
                                        let q = choose|q: int|
                                            0 <= q < list@.len() && list@[q] == j as usize;
                                        if q < i {
                                            assert(list@[q] < list@[i as int]);
                                        }
                                    }
                                }
                            }
                            let k = choose|k: int| stands_at(d, k, cls@, name@, desc@);
                            assert(stands_at(d, k, cls@, name@, desc@));
                            assert(k == at);
                        }
                        return Some(self.decls[at].text(3).clone());
                    }
                }
                proof {
                    lemma_spots(d, 0, cls@);
                    assert forall|j: int| !stands_at(d, j, cls@, name@, desc@) by {
                        if declares_at(d, j, cls@, name@, desc@) {
                            assert(list@.contains(j as usize));
                            let q = choose|q: int| 0 <= q < list@.len() && list@[q] == j as usize;
                            assert(!declares_at(d, list@[q] as int, cls@, name@, desc@));
                        }
                    }
                }
                None
            },
        }
    }

    /// The text in column `other` of each row that has `key` in column `col`.
    fn across(&self, index: &Index, key: &String, col: usize, other: usize) -> (r: Vec<String>)
        requires
            self.wf(),
            col < 2,
            other < 2,
            index.wf(self.edges(), col as int),
        ensures
            r@.len() == spots(self.edges(), col as int, key@).len(),
            forall|i: int|
                0 <= i < r@.len() ==> (#[trigger] r@[i])@ == self.edges()[spots(
                    self.edges(),
                    col as int,
                    key@,
                )[i] as int][other as int].text(),
    {
        let ghost e = self.edges();
        let mut r: Vec<String> = Vec::new();
        proof {
            self.lemma_columns();
            lemma_spots(e, col as int, key@);
        }
        match index.at(key, Ghost(e), Ghost(col as int)) {
            None => {},
            Some(list) => {
                let mut i: usize = 0;
                while i < list.len()
                    invariant
                        i <= list@.len(),
                        other < 2,
                        e == self.edges(),
                        self.wf(),
                        list@ == spots(e, col as int, key@),
                        forall|j: int| 0 <= j < list@.len() ==> (#[trigger] list@[j]) < e.len(),
                        r@.len() == i,
                        forall|j: int|
                            0 <= j < i ==> (#[trigger] r@[j])@
                                == e[list@[j] as int][other as int].text(),
                    decreases list@.len() - i,
                {
                    let at: usize = list[i];
                    proof {
                        self.lemma_columns();
                        assert(e[at as int] == self.edges@[at as int]@);
                        lemma_texts(e[at as int], 2);
                    }
                    let s = self.edges[at].text(other).clone();
                    r.push(s);
                    i += 1;
                }
            },
        }
        r
    }

    /// The implementation that a receiver of class `t` has.
    pub fn resolve(&self, t: &String, name: &String, desc: &String) -> (r: Option<String>)
        requires
            self.wf(),
        ensures
            match r {
                Some(p) => inherited(self.decls(), self.edges(), t@, name@, desc@) == Some(p@),
                None => inherited(self.decls(), self.edges(), t@, name@, desc@) is None,
            },
    {
        let ghost d = self.decls();
        let ghost e = self.edges();
        let ghost all = reachable(e, 1, t@);
        let mut queue = Names::new();
        queue.number(t);
        let ghost mut paths: Seq<Seq<nat>> = seq![Seq::<nat>::empty()];
        let mut head: usize = 0;
        proof {
            assert(queue@ =~= seq![t@]);
            queue.lemma_distinct();
            lemma_reachable(e, 1, t@, queue@);
        }
        while head < queue.len()
            invariant
                self.wf(),
                queue.wf(),
                d == self.decls(),
                e == self.edges(),
                all == reachable(e, 1, t@),
                head <= queue@.len() <= all.len(),
                reached(e, t@, queue@, paths),
                sorted(paths),
                stemmed(paths, head as int),
                expanded(e, queue@, paths, head as int),
                forall|q: int|
                    0 <= q < head ==> declared(d, #[trigger] queue@[q], name@, desc@) is None,
                forall|i: int| 0 <= i < queue@.len() ==> all.contains(#[trigger] queue@[i]),
            decreases all.len() - head,
        {
            let cur = queue.text(head).clone();
            match self.find_declared(&cur, name, desc) {
                Some(p) => {
                    proof {
                        let path = paths[head as int];
                        assert(climb(e, t@, path) == Some(cur@));
                        assert forall|other: Seq<nat>| #[trigger]
                            finds(d, e, t@, name@, desc@, other) implies other == path || ahead(
                            path,
                            other,
                        ) by {
                            assert(paths[0] + other =~= other);
                            lemma_cover(
                                d,
                                e,
                                t@,
                                name@,
                                desc@,
                                queue@,
                                paths,
                                head as int,
                                0,
                                other,
                            );
                        }
                        assert(nearest(d, e, t@, name@, desc@, path));
                        lemma_nearest(d, e, t@, name@, desc@, path);
                    }
                    return Some(p);
                },
                None => {},
            }
            let ups = self.across(&self.upward, &cur, 0, 1);
            proof {
                lemma_fresh_start(paths, head as int);
                assert(stemmed(paths, head + 1)) by {
                    assert forall|b: int| 0 < b < paths.len() implies #[trigger] stems(
                        paths,
                        b,
                        head + 1,
                    ) by {
                        assert(stems(paths, b, head as int));
                    }
                }
            }
            let mut i: usize = 0;
            while i < ups.len()
                invariant
                    self.wf(),
                    queue.wf(),
                    d == self.decls(),
                    e == self.edges(),
                    all == reachable(e, 1, t@),
                    head < queue@.len() <= all.len(),
                    queue@[head as int] == cur@,
                    i <= ups@.len(),
                    ups@.len() == parents(e, cur@).len(),
                    forall|j: int|
                        0 <= j < ups@.len() ==> (#[trigger] ups@[j])@ == parents(e, cur@)[j],
                    reached(e, t@, queue@, paths),
                    sorted(paths),
                    stemmed(paths, head + 1),
                    expanded(e, queue@, paths, head as int),
                    fresh(paths, head as int, i as int),
                    forall|k: int| 0 <= k < i ==> #[trigger] led(e, queue@, paths, head as int, k),
                    forall|q: int|
                        0 <= q < head ==> declared(d, #[trigger] queue@[q], name@, desc@) is None,
                    forall|j: int| 0 <= j < queue@.len() ==> all.contains(#[trigger] queue@[j]),
                decreases ups@.len() - i,
            {
                let ghost before = queue@;
                let ghost x = ups@[i as int]@;
                queue.number(&ups[i]);
                proof {
                    if before.contains(x) {
                        let b = choose|b: int| 0 <= b < before.len() && before[b] == x;
                        lemma_next_is_last(paths, head as int, i as nat, b);
                        assert(paths[b] == paths[head as int].push(i as nat) || ahead(
                            paths[b],
                            paths[head as int].push(i as nat),
                        ));
                        assert(led(e, queue@, paths, head as int, i as int));
                        assert(fresh(paths, head as int, i + 1));
                    } else {
                        lemma_search_grows(e, t@, before, paths, head as int, i as nat);
                        paths = paths.push(paths[head as int].push(i as nat));
                        self.lemma_columns();
                        lemma_spots(e, 0, cur@);
                        let at = spots(e, 0, cur@)[i as int];
                        lemma_column_is_reachable(e, 1, t@, at as int);
                        assert forall|j: int| 0 <= j < queue@.len() implies all.contains(
                            #[trigger] queue@[j],
                        ) by {
                            if j < before.len() {
                                assert(queue@[j] == before[j]);
                            }
                        }
                        queue.lemma_distinct();
                        lemma_reachable(e, 1, t@, queue@);
                    }
                }
                i += 1;
            }
            proof {
                assert(expanded(e, queue@, paths, head + 1));
            }
            head += 1;
        }
        proof {
            assert forall|path: Seq<nat>| !nearest(d, e, t@, name@, desc@, path) by {
                if finds(d, e, t@, name@, desc@, path) {
                    assert(paths[0] + path =~= path);
                    lemma_cover(d, e, t@, name@, desc@, queue@, paths, head as int, 0, path);
                }
            }
        }
        None
    }

    /// Every class that declares the method, with the implementation.
    pub fn declarers(&self, name: &String, desc: &String) -> (r: Vec<(String, String)>)
        requires
            self.wf(),
        ensures
            forall|t: Name, p: Name| #[trigger]
                pairs_up(r@, t, p) <==> self.decls().contains(rows::four_row(t, name@, desc@, p)),
    {
        let ghost d = self.decls();
        let mut r: Vec<(String, String)> = Vec::new();
        proof {
            self.lemma_columns();
            lemma_spots(d, 1, name@);
        }
        match self.by_name.at(name, Ghost(d), Ghost(1)) {
            None => {
                proof {
                    assert forall|t: Name, p: Name| #[trigger]
                        pairs_up(r@, t, p) <==> d.contains(rows::four_row(t, name@, desc@, p)) by {
                        let row = rows::four_row(t, name@, desc@, p);
                        if d.contains(row) {
                            let i = choose|i: int| 0 <= i < d.len() && d[i] == row;
                            assert(d[i][1].text() == name@);
                            assert(spots(d, 1, name@).contains(i as usize));
                        }
                    }
                }
                return r;
            },
            Some(list) => {
                let mut i: usize = 0;
                while i < list.len()
                    invariant
                        i <= list@.len(),
                        d == self.decls(),
                        self.wf(),
                        list@ == spots(d, 1, name@),
                        forall|j: int|
                            0 <= j < list@.len() ==> (#[trigger] list@[j]) < d.len()
                                && d[list@[j] as int][1].text() == name@,
                        forall|t: Name, p: Name| #[trigger]
                            pairs_up(r@, t, p) <==> exists|j: int|
                                0 <= j < i && d[(#[trigger] list@[j]) as int] == rows::four_row(
                                    t,
                                    name@,
                                    desc@,
                                    p,
                                ),
                    decreases list@.len() - i,
                {
                    let at: usize = list[i];
                    let ghost row = d[at as int];
                    let ghost r0 = r@;
                    proof {
                        self.lemma_columns();
                        assert(row == self.decls@[at as int]@);
                        lemma_texts(row, 4);
                    }
                    if *self.decls[at].text(2) == *desc {
                        let x = (self.decls[at].text(0).clone(), self.decls[at].text(3).clone());
                        r.push(x);
                        proof {
                            lemma_pair_pushed(r0, x);
                            assert(row =~= rows::four_row(x.0@, name@, desc@, x.1@));
                        }
                    }
                    proof {
                        assert forall|t: Name, p: Name| #[trigger]
                            pairs_up(r@, t, p) <==> exists|j: int|
                                0 <= j < i + 1 && d[(#[trigger] list@[j]) as int] == rows::four_row(
                                    t,
                                    name@,
                                    desc@,
                                    p,
                                ) by {
                            let want = rows::four_row(t, name@, desc@, p);
                            if pairs_up(r@, t, p) {
                                if pairs_up(r0, t, p) {
                                    let j = choose|j: int|
                                        0 <= j < i && d[(#[trigger] list@[j]) as int] == want;
                                    assert(d[list@[j] as int] == want);
                                } else {
                                    assert(d[list@[i as int] as int] == want);
                                }
                            }
                            if exists|j: int|
                                0 <= j < i + 1 && d[(#[trigger] list@[j]) as int] == want {
                                let j = choose|j: int|
                                    0 <= j < i + 1 && d[(#[trigger] list@[j]) as int] == want;
                                if j < i {
                                    assert(pairs_up(r0, t, p));
                                } else {
                                    assert(row[0].text() == t && row[3].text() == p);
                                    assert(row[2].text() == desc@);
                                }
                            }
                        }
                    }
                    i += 1;
                }
                proof {
                    lemma_spots(d, 1, name@);
                    assert forall|t: Name, p: Name| #[trigger]
                        pairs_up(r@, t, p) <==> d.contains(rows::four_row(t, name@, desc@, p)) by {
                        let want = rows::four_row(t, name@, desc@, p);
                        if d.contains(want) {
                            let q = choose|q: int| 0 <= q < d.len() && d[q] == want;
                            assert(d[q][1].text() == name@);
                            assert(list@.contains(q as usize));
                            let j = choose|j: int| 0 <= j < list@.len() && list@[j] == q as usize;
                            assert(d[list@[j] as int] == want);
                        }
                    }
                }
            },
        }
        r
    }

    /// `t` and every class below it, each once.
    pub fn subtypes(&self, t: &String) -> (r: Names)
        requires
            self.wf(),
        ensures
            r.wf(),
            forall|c: Name| #[trigger] r@.contains(c) <==> below(self.edges(), t@, c),
    {
        let ghost e = self.edges();
        let ghost all = reachable(e, 0, t@);
        let mut names = Names::new();
        names.number(t);
        let mut i: usize = 0;
        proof {
            assert(names@ =~= seq![t@]);
            names.lemma_distinct();
            lemma_reachable(e, 0, t@, names@);
            assert(climb(e, t@, Seq::<nat>::empty()) == Some(t@));
            assert(below(e, t@, t@));
        }
        while i < names.len()
            invariant
                self.wf(),
                names.wf(),
                e == self.edges(),
                all == reachable(e, 0, t@),
                i <= names@.len() <= all.len(),
                names@.len() > 0,
                names@[0] == t@,
                forall|j: int|
                    0 <= j < names@.len() ==> below(e, t@, #[trigger] names@[j]) && all.contains(
                        names@[j],
                    ),
                forall|j: int, at: int|
                    0 <= j < i && 0 <= at < e.len() && e[at][1].text() == #[trigger] names@[j]
                        ==> names@.contains((#[trigger] e[at])[0].text()),
            decreases all.len() - i,
        {
            let cur = names.text(i).clone();
            let kids = self.across(&self.downward, &cur, 1, 0);
            let ghost list = spots(e, 1, cur@);
            proof {
                self.lemma_columns();
                lemma_spots(e, 1, cur@);
            }
            let mut k: usize = 0;
            while k < kids.len()
                invariant
                    self.wf(),
                    names.wf(),
                    e == self.edges(),
                    e.len() <= usize::MAX,
                    all == reachable(e, 0, t@),
                    i < names@.len() <= all.len(),
                    names@[0] == t@,
                    names@[i as int] == cur@,
                    k <= kids@.len(),
                    list == spots(e, 1, cur@),
                    kids@.len() == list.len(),
                    forall|j: int|
                        0 <= j < list.len() ==> (#[trigger] list[j]) < e.len()
                            && e[list[j] as int][1].text() == cur@,
                    forall|j: int|
                        0 <= j < kids@.len() ==> (#[trigger] kids@[j])@
                            == e[list[j] as int][0].text(),
                    forall|j: int|
                        0 <= j < names@.len() ==> below(e, t@, #[trigger] names@[j])
                            && all.contains(
                            names@[j],
                        ),
                    forall|j: int, at: int|
                        0 <= j < i && 0 <= at < e.len() && e[at][1].text() == #[trigger] names@[j]
                            ==> names@.contains((#[trigger] e[at])[0].text()),
                    forall|j: int|
                        0 <= j < k ==> names@.contains(e[(#[trigger] list[j]) as int][0].text()),
                decreases kids@.len() - k,
            {
                let ghost before = names@;
                let ghost at = list[k as int] as int;
                names.number(&kids[k]);
                proof {
                    lemma_spots(e, 0, e[at][0].text());
                    lemma_child_is_below(e, t@, at);
                    lemma_column_is_reachable(e, 0, t@, at);
                    assert forall|j: int| 0 <= j < names@.len() implies below(
                        e,
                        t@,
                        #[trigger] names@[j],
                    ) && all.contains(names@[j]) by {
                        if j < before.len() {
                            assert(names@[j] == before[j]);
                        }
                    }
                    assert forall|x: Name| before.contains(x)
                        implies #[trigger] names@.contains(x) by {
                        let j = choose|j: int| 0 <= j < before.len() && before[j] == x;
                        assert(names@[j] == x);
                    }
                    names.lemma_distinct();
                    lemma_reachable(e, 0, t@, names@);
                }
                k += 1;
            }
            proof {
                assert forall|j: int, at: int|
                    0 <= j < i + 1 && 0 <= at < e.len() && e[at][1].text()
                        == #[trigger] names@[j] implies names@.contains(
                    (#[trigger] e[at])[0].text(),
                ) by {
                    if j == i {
                        assert(list.contains(at as usize));
                        let q = choose|q: int| 0 <= q < list.len() && list[q] == at as usize;
                        assert(names@.contains(e[list[q] as int][0].text()));
                    }
                }
            }
            i += 1;
        }
        proof {
            self.lemma_columns();
            assert forall|c: Name| #[trigger] names@.contains(c) <==> below(e, t@, c) by {
                if below(e, t@, c) {
                    let path = choose|path: Seq<nat>| #[trigger] climb(e, c, path) == Some(t@);
                    lemma_closed_below(e, t@, names@, c, path);
                }
            }
        }
        names
    }
}

/// The list pairs `t` with `p`.
pub open spec fn pairs_up(v: Seq<(String, String)>, t: Name, p: Name) -> bool {
    exists|j: int| 0 <= j < v.len() && (#[trigger] v[j]).0@ == t && v[j].1@ == p
}

pub proof fn lemma_pair_pushed(v: Seq<(String, String)>, x: (String, String))
    ensures
        forall|t: Name, p: Name| #[trigger]
            pairs_up(v.push(x), t, p) <==> pairs_up(v, t, p) || t == x.0@ && p == x.1@,
{
    let w = v.push(x);
    assert forall|t: Name, p: Name| #[trigger]
        pairs_up(w, t, p) <==> pairs_up(v, t, p) || t == x.0@ && p == x.1@ by {
        if pairs_up(v, t, p) {
            let j = choose|j: int| 0 <= j < v.len() && (#[trigger] v[j]).0@ == t && v[j].1@ == p;
            assert(w[j].0@ == t && w[j].1@ == p);
        }
        if t == x.0@ && p == x.1@ {
            assert(w[v.len() as int].0@ == t);
        }
        if pairs_up(w, t, p) {
            let j = choose|j: int| 0 <= j < w.len() && (#[trigger] w[j]).0@ == t && w[j].1@ == p;
            if j < v.len() {
                assert(v[j].0@ == t);
            }
        }
    }
}

proof fn lemma_nearest(
    d: Seq<Seq<Datum>>,
    e: Seq<Seq<Datum>>,
    t: Name,
    name: Name,
    desc: Name,
    path: Seq<nat>,
)
    requires
        nearest(d, e, t, name, desc, path),
    ensures
        inherited(d, e, t, name, desc) == declared(d, climb(e, t, path)->0, name, desc),
{
    let other = choose|other: Seq<nat>| nearest(d, e, t, name, desc, other);
    assert(nearest(d, e, t, name, desc, other));
    if other != path {
        lemma_ahead_transitive(path, other, path);
        lemma_ahead_irreflexive(path);
    }
}

/// A class that extends one below `t` is below `t`.
proof fn lemma_child_is_below(e: Seq<Seq<Datum>>, t: Name, at: int)
    requires
        0 <= at < e.len() <= usize::MAX,
        below(e, t, e[at][1].text()),
    ensures
        below(e, t, e[at][0].text()),
{
    let (c, p) = (e[at][0].text(), e[at][1].text());
    lemma_spots(e, 0, c);
    let list = spots(e, 0, c);
    assert(list.contains(at as usize));
    let k = choose|k: int| 0 <= k < list.len() && list[k] == at as usize;
    let path = choose|path: Seq<nat>| #[trigger] climb(e, p, path) == Some(t);
    let one = seq![k as nat];
    assert(one.drop_last() =~= Seq::<nat>::empty());
    assert(climb(e, c, one.drop_last()) == Some(c));
    assert(parents(e, c)[k] == p);
    assert(climb(e, c, one) == Some(p));
    lemma_climb_parts(e, c, one, path);
}

/// A list that holds `t`, and every class that extends one it holds, holds all below `t`.
proof fn lemma_closed_below(
    e: Seq<Seq<Datum>>,
    t: Name,
    names: Seq<Name>,
    c: Name,
    path: Seq<nat>,
)
    requires
        e.len() <= usize::MAX,
        names.contains(t),
        forall|j: int, at: int|
            0 <= j < names.len() && 0 <= at < e.len() && e[at][1].text() == #[trigger] names[j]
                ==> names.contains((#[trigger] e[at])[0].text()),
        climb(e, c, path) == Some(t),
    ensures
        names.contains(c),
    decreases path.len(),
{
    if path.len() > 0 {
        let one = seq![path[0]];
        let tail = path.drop_first();
        assert(path =~= one + tail);
        lemma_climb_parts(e, c, one, tail);
        assert(one.drop_last() =~= Seq::<nat>::empty());
        assert(climb(e, c, one.drop_last()) == Some(c));
        let p = climb(e, c, one)->0;
        lemma_closed_below(e, t, names, p, tail);
        lemma_spots(e, 0, c);
        let at = spots(e, 0, c)[path[0] as int] as int;
        assert(e[at][1].text() == p && e[at][0].text() == c);
        let j = choose|j: int| 0 <= j < names.len() && names[j] == p;
        assert(names[j] == e[at][1].text());
    }
}

// ---------------------------------------------------------------------------
// Laws
// ---------------------------------------------------------------------------

/// What a class declares itself stands before anything it could inherit.
pub proof fn law_own_declaration_stands(
    decls: Seq<Seq<Datum>>,
    edges: Seq<Seq<Datum>>,
    t: Name,
    name: Name,
    desc: Name,
)
    requires
        declared(decls, t, name, desc) is Some,
    ensures
        inherited(decls, edges, t, name, desc) == declared(decls, t, name, desc),
{
    let path = Seq::<nat>::empty();
    assert(climb(edges, t, path) == Some(t));
    assert forall|other: Seq<nat>| #[trigger]
        finds(decls, edges, t, name, desc, other) implies other == path || ahead(path, other) by {
        if other.len() == 0 {
            assert(other =~= path);
        }
    }
    lemma_nearest(decls, edges, t, name, desc, path);
}

/// Of the classes that a class directly extends, one listed earlier comes before one
/// listed later: a superclass before an interface.
pub proof fn law_earlier_parent_comes_first(
    decls: Seq<Seq<Datum>>,
    edges: Seq<Seq<Datum>>,
    t: Name,
    name: Name,
    desc: Name,
    k: nat,
)
    requires
        declared(decls, t, name, desc) is None,
        k < parents(edges, t).len(),
        declared(decls, parents(edges, t)[k as int], name, desc) is Some,
        forall|j: int|
            0 <= j < k ==> declared(decls, #[trigger] parents(edges, t)[j], name, desc) is None,
    ensures
        inherited(decls, edges, t, name, desc) == declared(
            decls,
            parents(edges, t)[k as int],
            name,
            desc,
        ),
{
    let none = Seq::<nat>::empty();
    let path = seq![k];
    assert(path.drop_last() =~= none);
    assert(climb(edges, t, none) == Some(t));
    assert(climb(edges, t, path) == Some(parents(edges, t)[k as int]));
    assert forall|other: Seq<nat>| #[trigger]
        finds(decls, edges, t, name, desc, other) implies other == path || ahead(path, other) by {
        if other.len() == 0 {
            assert(climb(edges, t, other) == Some(t));
        } else if other.len() == 1 {
            assert(other.drop_last() =~= none);
            let j = other[0];
            assert(climb(edges, t, other) == Some(parents(edges, t)[j as int]));
            if j == k {
                assert(other =~= path);
            } else {
                assert(j > k);
                assert(turns(path, other, 0));
            }
        }
    }
    lemma_nearest(decls, edges, t, name, desc, path);
}

/// Every class is below itself, and below what is above a class it is below.
pub proof fn law_below_is_an_order(edges: Seq<Seq<Datum>>, a: Name, b: Name, c: Name)
    ensures
        below(edges, a, a),
        below(edges, a, b) && below(edges, b, c) ==> below(edges, a, c),
{
    assert(climb(edges, a, Seq::<nat>::empty()) == Some(a));
    if below(edges, a, b) && below(edges, b, c) {
        let x = choose|x: Seq<nat>| #[trigger] climb(edges, c, x) == Some(b);
        let y = choose|y: Seq<nat>| #[trigger] climb(edges, b, y) == Some(a);
        lemma_climb_parts(edges, c, x, y);
        assert(climb(edges, c, x + y) == Some(a));
    }
}

// ---------------------------------------------------------------------------
// Ascents
// ---------------------------------------------------------------------------

/// Some row lists `b` as what `a` extends.
pub open spec fn extends(edges: Seq<Seq<Datum>>, a: Name, b: Name) -> bool {
    exists|i: int|
        0 <= i < edges.len() && (#[trigger] edges[i])[0].text() == a && edges[i][1].text() == b
}

/// Classes each of which extends the next.
pub open spec fn ascent(edges: Seq<Seq<Datum>>, names: Seq<Name>) -> bool {
    &&& names.len() > 0
    &&& forall|i: int| 0 <= i < names.len() - 1
        ==> extends(edges, #[trigger] names[i], names[i + 1])
}

/// Row `i` declares the method of the class.
pub open spec fn is_row(
    decls: Seq<Seq<Datum>>,
    i: int,
    cls: Name,
    name: Name,
    desc: Name,
) -> bool {
    &&& 0 <= i < decls.len()
    &&& decls[i][0].text() == cls
    &&& decls[i][1].text() == name
    &&& decls[i][2].text() == desc
}

/// The ascent starts at `t` and ends at a class with a row for the method.
pub open spec fn arrives(
    decls: Seq<Seq<Datum>>,
    edges: Seq<Seq<Datum>>,
    t: Name,
    name: Name,
    desc: Name,
    names: Seq<Name>,
) -> bool {
    &&& ascent(edges, names)
    &&& names[0] == t
    &&& exists|i: int| is_row(decls, i, names.last(), name, desc)
}

proof fn lemma_climb_is_ascent(edges: Seq<Seq<Datum>>, t: Name, path: Seq<nat>)
    requires
        edges.len() <= usize::MAX,
        climb(edges, t, path) is Some,
    ensures
        exists|names: Seq<Name>|
            #[trigger] ascent(edges, names) && names.len() == path.len() + 1 && names[0] == t
                && names.last() == climb(edges, t, path)->0,
    decreases path.len(),
{
    if path.len() == 0 {
        let names = seq![t];
        assert(ascent(edges, names));
    } else {
        let c = climb(edges, t, path.drop_last())->0;
        lemma_climb_is_ascent(edges, t, path.drop_last());
        let few = choose|names: Seq<Name>|
            #[trigger] ascent(edges, names) && names.len() == path.len() && names[0] == t
                && names.last() == c;
        let d = climb(edges, t, path)->0;
        let names = few.push(d);
        lemma_spots(edges, 0, c);
        let at = spots(edges, 0, c)[path.last() as int] as int;
        assert(edges[at][0].text() == c && edges[at][1].text() == d);
        assert(extends(edges, c, d));
        assert forall|i: int| 0 <= i < names.len() - 1 implies extends(
            edges,
            #[trigger] names[i],
            names[i + 1],
        ) by {
            if i < few.len() - 1 {
                assert(extends(edges, few[i], few[i + 1]));
            }
        }
        assert(ascent(edges, names));
    }
}

proof fn lemma_ascent_is_climb(edges: Seq<Seq<Datum>>, names: Seq<Name>)
    requires
        edges.len() <= usize::MAX,
        ascent(edges, names),
    ensures
        exists|path: Seq<nat>|
            path.len() + 1 == names.len() && #[trigger] climb(edges, names[0], path) == Some(
                names.last(),
            ),
    decreases names.len(),
{
    if names.len() == 1 {
        let path = Seq::<nat>::empty();
        assert(climb(edges, names[0], path) == Some(names.last()));
    } else {
        let few = names.drop_last();
        assert forall|i: int| 0 <= i < few.len() - 1 implies extends(
            edges,
            #[trigger] few[i],
            few[i + 1],
        ) by {
            assert(extends(edges, names[i], names[i + 1]));
        }
        lemma_ascent_is_climb(edges, few);
        let path = choose|path: Seq<nat>|
            path.len() + 1 == few.len() && #[trigger] climb(edges, few[0], path) == Some(
                few.last(),
            );
        let (c, d) = (few.last(), names.last());
        let n = names.len() as int - 2;
        assert(names[n] == c && names[n + 1] == d);
        assert(extends(edges, c, d));
        let i = choose|i: int|
            0 <= i < edges.len() && (#[trigger] edges[i])[0].text() == c && edges[i][1].text() == d;
        lemma_spots(edges, 0, c);
        let list = spots(edges, 0, c);
        assert(list.contains(i as usize));
        let k = choose|k: int| 0 <= k < list.len() && list[k] == i as usize;
        assert(parents(edges, c)[k] == d);
        let more = path.push(k as nat);
        assert(more.drop_last() =~= path);
        assert(climb(edges, names[0], more) == Some(d));
    }
}

/// A row for the method is a declaration, and the last one stands.
proof fn lemma_declared(decls: Seq<Seq<Datum>>, cls: Name, name: Name, desc: Name, i: int)
    requires
        is_row(decls, i, cls, name, desc),
    ensures
        declared(decls, cls, name, desc) is Some,
    decreases decls.len() - i,
{
    if forall|j: int| i < j ==> !is_row(decls, j, cls, name, desc) {
        assert forall|j: int| i < j implies !declares_at(decls, j, cls, name, desc) by {
            assert(!is_row(decls, j, cls, name, desc));
        }
        assert(stands_at(decls, i, cls, name, desc));
    } else {
        let j = choose|j: int| i < j && is_row(decls, j, cls, name, desc);
        lemma_declared(decls, cls, name, desc, j);
    }
}

/// What is declared is the implementation of the last row for the method.
proof fn lemma_stands(decls: Seq<Seq<Datum>>, cls: Name, name: Name, desc: Name)
    requires
        declared(decls, cls, name, desc) is Some,
    ensures
        exists|i: int|
            #[trigger] is_row(decls, i, cls, name, desc) && declared(decls, cls, name, desc)
                == Some(decls[i][3].text()) && forall|j: int|
                i < j ==> !is_row(decls, j, cls, name, desc),
{
    let i = choose|i: int| stands_at(decls, i, cls, name, desc);
    assert(stands_at(decls, i, cls, name, desc));
    assert(is_row(decls, i, cls, name, desc));
    assert forall|j: int| i < j implies !is_row(decls, j, cls, name, desc) by {
        assert(!declares_at(decls, j, cls, name, desc));
    }
}

proof fn lemma_arrives(
    decls: Seq<Seq<Datum>>,
    edges: Seq<Seq<Datum>>,
    t: Name,
    name: Name,
    desc: Name,
    names: Seq<Name>,
)
    requires
        edges.len() <= usize::MAX,
        arrives(decls, edges, t, name, desc, names),
    ensures
        exists|path: Seq<nat>|
            path.len() + 1 == names.len() && #[trigger] finds(decls, edges, t, name, desc, path),
{
    lemma_ascent_is_climb(edges, names);
    let path = choose|path: Seq<nat>|
        path.len() + 1 == names.len() && #[trigger] climb(edges, names[0], path) == Some(
            names.last(),
        );
    let i = choose|i: int| is_row(decls, i, names.last(), name, desc);
    lemma_declared(decls, names.last(), name, desc, i);
    assert(finds(decls, edges, t, name, desc, path));
}

/// Some climb finds the method and goes on from `pre` by `x`.
spec fn goes_by(
    d: Seq<Seq<Datum>>,
    e: Seq<Seq<Datum>>,
    t: Name,
    name: Name,
    desc: Name,
    pre: Seq<nat>,
    len: nat,
    x: nat,
) -> bool {
    exists|path: Seq<nat>|
        {
            &&& #[trigger] finds(d, e, t, name, desc, path)
            &&& path.len() == len
            &&& path.take(pre.len() as int) == pre
            &&& path[pre.len() as int] == x
        }
}

proof fn lemma_least_turn(
    d: Seq<Seq<Datum>>,
    e: Seq<Seq<Datum>>,
    t: Name,
    name: Name,
    desc: Name,
    pre: Seq<nat>,
    len: nat,
    x: nat,
) -> (y: nat)
    requires
        goes_by(d, e, t, name, desc, pre, len, x),
    ensures
        goes_by(d, e, t, name, desc, pre, len, y),
        forall|z: nat| z < y ==> !goes_by(d, e, t, name, desc, pre, len, z),
    decreases x,
{
    if exists|z: nat| z < x && goes_by(d, e, t, name, desc, pre, len, z) {
        let z = choose|z: nat| z < x && goes_by(d, e, t, name, desc, pre, len, z);
        lemma_least_turn(d, e, t, name, desc, pre, len, z)
    } else {
        x
    }
}

/// Of the climbs of one length that find the method and start alike, one is first.
proof fn lemma_first_of_length(
    d: Seq<Seq<Datum>>,
    e: Seq<Seq<Datum>>,
    t: Name,
    name: Name,
    desc: Name,
    pre: Seq<nat>,
    path: Seq<nat>,
) -> (best: Seq<nat>)
    requires
        finds(d, e, t, name, desc, path),
        pre.len() <= path.len(),
        path.take(pre.len() as int) == pre,
    ensures
        finds(d, e, t, name, desc, best),
        best.len() == path.len(),
        best.take(pre.len() as int) == pre,
        forall|other: Seq<nat>|
            #[trigger] finds(d, e, t, name, desc, other) && other.len() == path.len()
                && other.take(pre.len() as int) == pre ==> other == best || ahead(best, other),
    decreases path.len() - pre.len(),
{
    let (k, len) = (pre.len() as int, path.len());
    if k == len {
        assert(path =~= pre);
        assert forall|other: Seq<nat>|
            #[trigger] finds(d, e, t, name, desc, other) && other.len() == path.len() && other.take(
                k,
            ) == pre implies other == path || ahead(path, other) by {
            assert(other =~= other.take(k));
        }
        path
    } else {
        assert(goes_by(d, e, t, name, desc, pre, len, path[k]));
        let y = lemma_least_turn(d, e, t, name, desc, pre, len, path[k]);
        let next = choose|next: Seq<nat>|
            {
                &&& #[trigger] finds(d, e, t, name, desc, next)
                &&& next.len() == len
                &&& next.take(k) == pre
                &&& next[k] == y
            };
        let more = pre.push(y);
        assert(next.take(k + 1) =~= more);
        let best = lemma_first_of_length(d, e, t, name, desc, more, next);
        assert(best.take(k) =~= best.take(k + 1).take(k));
        assert(more.take(k) =~= pre);
        assert(best[k] == best.take(k + 1)[k]);
        assert forall|other: Seq<nat>|
            #[trigger] finds(d, e, t, name, desc, other) && other.len() == path.len() && other.take(
                k,
            ) == pre implies other == best || ahead(best, other) by {
            assert(goes_by(d, e, t, name, desc, pre, len, other[k]));
            assert(other[k] >= y);
            if other[k] == y {
                assert(other.take(k + 1) =~= more);
            } else {
                assert forall|j: int| 0 <= j < k implies best[j] == other[j] by {
                    assert(best.take(k)[j] == other.take(k)[j]);
                }
                assert(turns(best, other, k));
            }
        }
        best
    }
}

proof fn lemma_nearest_exists(
    d: Seq<Seq<Datum>>,
    e: Seq<Seq<Datum>>,
    t: Name,
    name: Name,
    desc: Name,
    path: Seq<nat>,
) -> (best: Seq<nat>)
    requires
        finds(d, e, t, name, desc, path),
    ensures
        nearest(d, e, t, name, desc, best),
        best.len() <= path.len(),
    decreases path.len(),
{
    if exists|other: Seq<nat>|
        #[trigger] finds(d, e, t, name, desc, other) && other.len() < path.len() {
        let other = choose|other: Seq<nat>|
            #[trigger] finds(d, e, t, name, desc, other) && other.len() < path.len();
        lemma_nearest_exists(d, e, t, name, desc, other)
    } else {
        let none = Seq::<nat>::empty();
        assert(path.take(0) =~= none);
        let best = lemma_first_of_length(d, e, t, name, desc, none, path);
        assert forall|other: Seq<nat>| #[trigger]
            finds(d, e, t, name, desc, other) implies other == best || ahead(best, other) by {
            assert(other.take(0) =~= none);
        }
        best
    }
}

/// What is inherited is the implementation of a row that has the name and the descriptor
/// and a class at or above the receiver's; of the rows of that class the last, and no
/// class with such a row is fewer steps up.
pub proof fn law_inherited_comes_from_a_row(
    decls: Seq<Seq<Datum>>,
    edges: Seq<Seq<Datum>>,
    t: Name,
    name: Name,
    desc: Name,
    p: Name,
)
    requires
        edges.len() <= usize::MAX,
        inherited(decls, edges, t, name, desc) == Some(p),
    ensures
        exists|names: Seq<Name>, i: int|
            {
                &&& #[trigger] ascent(edges, names) && names[0] == t
                &&& #[trigger] is_row(decls, i, names.last(), name, desc)
                &&& decls[i][3].text() == p
                &&& forall|j: int| i < j ==> !is_row(decls, j, names.last(), name, desc)
                &&& forall|other: Seq<Name>|
                    #[trigger] arrives(decls, edges, t, name, desc, other) ==> other.len()
                        >= names.len()
            },
{
    let path = choose|path: Seq<nat>| nearest(decls, edges, t, name, desc, path);
    assert(nearest(decls, edges, t, name, desc, path));
    let c = climb(edges, t, path)->0;
    lemma_climb_is_ascent(edges, t, path);
    let names = choose|names: Seq<Name>|
        #[trigger] ascent(edges, names) && names.len() == path.len() + 1 && names[0] == t
            && names.last() == c;
    lemma_stands(decls, c, name, desc);
    let i = choose|i: int|
        #[trigger] is_row(decls, i, c, name, desc) && declared(decls, c, name, desc) == Some(
            decls[i][3].text(),
        ) && forall|j: int| i < j ==> !is_row(decls, j, c, name, desc);
    assert forall|other: Seq<Name>| #[trigger]
        arrives(decls, edges, t, name, desc, other) implies other.len() >= names.len() by {
        lemma_arrives(decls, edges, t, name, desc, other);
        let q = choose|q: Seq<nat>|
            q.len() + 1 == other.len() && #[trigger] finds(decls, edges, t, name, desc, q);
        assert(q == path || ahead(path, q));
    }
    assert(ascent(edges, names) && is_row(decls, i, names.last(), name, desc));
}

/// Something is inherited exactly where some class at or above the receiver's has a row
/// for the name and the descriptor.
pub proof fn law_something_is_inherited(
    decls: Seq<Seq<Datum>>,
    edges: Seq<Seq<Datum>>,
    t: Name,
    name: Name,
    desc: Name,
)
    requires
        edges.len() <= usize::MAX,
    ensures
        inherited(decls, edges, t, name, desc) is Some <==> exists|names: Seq<Name>|
            arrives(decls, edges, t, name, desc, names),
{
    if exists|names: Seq<Name>| arrives(decls, edges, t, name, desc, names) {
        let names = choose|names: Seq<Name>| arrives(decls, edges, t, name, desc, names);
        lemma_arrives(decls, edges, t, name, desc, names);
        let path = choose|path: Seq<nat>|
            path.len() + 1 == names.len() && #[trigger] finds(decls, edges, t, name, desc, path);
        let best = lemma_nearest_exists(decls, edges, t, name, desc, path);
        lemma_nearest(decls, edges, t, name, desc, best);
    }
    if inherited(decls, edges, t, name, desc) is Some {
        let p = inherited(decls, edges, t, name, desc)->0;
        law_inherited_comes_from_a_row(decls, edges, t, name, desc, p);
        let (names, i) = choose|names: Seq<Name>, i: int|
            {
                &&& #[trigger] ascent(edges, names) && names[0] == t
                &&& #[trigger] is_row(decls, i, names.last(), name, desc)
                &&& decls[i][3].text() == p
                &&& forall|j: int| i < j ==> !is_row(decls, j, names.last(), name, desc)
                &&& forall|other: Seq<Name>|
                    #[trigger] arrives(decls, edges, t, name, desc, other) ==> other.len()
                        >= names.len()
            };
        assert(arrives(decls, edges, t, name, desc, names));
    }
}

/// Rows for another name or another descriptor do not change what is inherited, wherever
/// they stand.
pub proof fn law_other_methods_do_not_matter(
    decls: Seq<Seq<Datum>>,
    edges: Seq<Seq<Datum>>,
    t: Name,
    name: Name,
    desc: Name,
    at: int,
    row: Seq<Datum>,
)
    requires
        0 <= at <= decls.len(),
        row[1].text() != name || row[2].text() != desc,
    ensures
        inherited(decls.insert(at, row), edges, t, name, desc) == inherited(
            decls,
            edges,
            t,
            name,
            desc,
        ),
{
    let more = decls.insert(at, row);
    assert forall|c: Name| #[trigger] declared(more, c, name, desc) == declared(
        decls,
        c,
        name,
        desc,
    ) by {
        assert forall|i: int| is_row(more, i, c, name, desc) implies i != at && is_row(
            decls,
            if i < at {
                i
            } else {
                i - 1
            },
            c,
            name,
            desc,
        ) by {}
        assert forall|i: int| is_row(decls, i, c, name, desc) implies is_row(
            more,
            if i < at {
                i
            } else {
                i + 1
            },
            c,
            name,
            desc,
        ) by {}
        if declared(decls, c, name, desc) is Some {
            lemma_stands(decls, c, name, desc);
            let i = choose|i: int|
                #[trigger] is_row(decls, i, c, name, desc) && declared(decls, c, name, desc)
                    == Some(decls[i][3].text()) && forall|j: int|
                    i < j ==> !is_row(decls, j, c, name, desc);
            let k = if i < at {
                i
            } else {
                i + 1
            };
            assert(is_row(more, k, c, name, desc));
            lemma_declared(more, c, name, desc, k);
            lemma_stands(more, c, name, desc);
            let l = choose|l: int|
                #[trigger] is_row(more, l, c, name, desc) && declared(more, c, name, desc) == Some(
                    more[l][3].text(),
                ) && forall|j: int| l < j ==> !is_row(more, j, c, name, desc);
            let m = if l < at {
                l
            } else {
                l - 1
            };
            assert(is_row(decls, m, c, name, desc));
            assert(m <= i && k <= l);
            assert(l == k);
            assert(more[k] == decls[i]);
        } else if declared(more, c, name, desc) is Some {
            lemma_stands(more, c, name, desc);
            let l = choose|l: int|
                #[trigger] is_row(more, l, c, name, desc) && declared(more, c, name, desc) == Some(
                    more[l][3].text(),
                ) && forall|j: int| l < j ==> !is_row(more, j, c, name, desc);
            let m = if l < at {
                l
            } else {
                l - 1
            };
            assert(is_row(decls, m, c, name, desc));
            lemma_declared(decls, c, name, desc, m);
        }
    }
    assert forall|path: Seq<nat>| #[trigger]
        finds(more, edges, t, name, desc, path) == finds(decls, edges, t, name, desc, path) by {
        if climb(edges, t, path) is Some {
            let c = climb(edges, t, path)->0;
            assert(declared(more, c, name, desc) == declared(decls, c, name, desc));
        }
    }
    assert forall|path: Seq<nat>|
        nearest(more, edges, t, name, desc, path) <==> nearest(
            decls,
            edges,
            t,
            name,
            desc,
            path,
        ) by {
        assert(finds(more, edges, t, name, desc, path) == finds(decls, edges, t, name, desc, path));
        if nearest(more, edges, t, name, desc, path) {
            assert forall|other: Seq<nat>| #[trigger]
                finds(decls, edges, t, name, desc, other) implies other == path || ahead(
                path,
                other,
            ) by {
                assert(finds(more, edges, t, name, desc, other));
            }
        }
    }
    if exists|path: Seq<nat>| nearest(decls, edges, t, name, desc, path) {
        let path = choose|path: Seq<nat>| nearest(decls, edges, t, name, desc, path);
        assert(nearest(decls, edges, t, name, desc, path));
        assert(nearest(more, edges, t, name, desc, path));
        lemma_nearest(decls, edges, t, name, desc, path);
        lemma_nearest(more, edges, t, name, desc, path);
        let c = climb(edges, t, path)->0;
        assert(declared(more, c, name, desc) == declared(decls, c, name, desc));
    } else if exists|path: Seq<nat>| nearest(more, edges, t, name, desc, path) {
        let path = choose|path: Seq<nat>| nearest(more, edges, t, name, desc, path);
        assert(nearest(more, edges, t, name, desc, path));
        assert(nearest(decls, edges, t, name, desc, path));
    }
}

/// A class is below another exactly where it comes to it by extending.
pub proof fn law_below_is_extending(edges: Seq<Seq<Datum>>, t: Name, c: Name)
    requires
        edges.len() <= usize::MAX,
    ensures
        below(edges, t, c) <==> exists|names: Seq<Name>|
            #[trigger] ascent(edges, names) && names[0] == c && names.last() == t,
{
    if below(edges, t, c) {
        let path = choose|path: Seq<nat>| #[trigger] climb(edges, c, path) == Some(t);
        lemma_climb_is_ascent(edges, c, path);
    }
    if exists|names: Seq<Name>|
        #[trigger] ascent(edges, names) && names[0] == c && names.last() == t {
        let names = choose|names: Seq<Name>|
            #[trigger] ascent(edges, names) && names[0] == c && names.last() == t;
        lemma_ascent_is_climb(edges, names);
    }
}

/// What a class directly extends are the second columns of its rows, in their order.
pub proof fn law_parents_are_its_rows(edges: Seq<Seq<Datum>>, t: Name)
    requires
        edges.len() <= usize::MAX,
    ensures
        parents(edges, t).len() == edges.filter(|row: Seq<Datum>| row[0].text() == t).len(),
        forall|i: int|
            0 <= i < parents(edges, t).len() ==> #[trigger] parents(edges, t)[i] == edges.filter(
                |row: Seq<Datum>| row[0].text() == t,
            )[i][1].text(),
    decreases edges.len(),
{
    reveal(Seq::filter);
    if edges.len() > 0 {
        let few = edges.drop_last();
        law_parents_are_its_rows(few, t);
        lemma_spots(few, 0, t);
        lemma_spots(edges, 0, t);
        let (a, b) = (parents(few, t), parents(edges, t));
        assert forall|i: int| 0 <= i < a.len() implies a[i] == b[i] by {
            assert(spots(few, 0, t)[i] == spots(edges, 0, t)[i]);
            assert(few[spots(few, 0, t)[i] as int] == edges[spots(few, 0, t)[i] as int]);
        }
    }
}

// ---------------------------------------------------------------------------
// Answers
// ---------------------------------------------------------------------------

/// A class resolves a method where it or something it extends declares it with that
/// descriptor, and then to what the last such row of a nearest declaring class names.
pub proof fn law_resolving_reads_the_rows(
    h: &Hierarchy,
    t: &String,
    name: &String,
    desc: &String,
    r: Option<String>,
)
    requires
        call_ensures(Hierarchy::resolve, (h, t, name, desc), r),
        h.edges().len() <= usize::MAX,
    ensures
        r is Some <==> exists|names: Seq<Name>|
            arrives(h.decls(), h.edges(), t@, name@, desc@, names),
        r matches Some(p) ==> exists|names: Seq<Name>, i: int|
            {
                &&& #[trigger] ascent(h.edges(), names) && names[0] == t@
                &&& #[trigger] is_row(h.decls(), i, names.last(), name@, desc@)
                &&& h.decls()[i][3].text() == p@
                &&& forall|j: int| i < j ==> !is_row(h.decls(), j, names.last(), name@, desc@)
                &&& forall|other: Seq<Name>|
                    #[trigger] arrives(h.decls(), h.edges(), t@, name@, desc@, other)
                        ==> other.len() >= names.len()
            },
{
    law_something_is_inherited(h.decls(), h.edges(), t@, name@, desc@);
    if r is Some {
        law_inherited_comes_from_a_row(h.decls(), h.edges(), t@, name@, desc@, r->0@);
    }
}

/// The subtypes of a class are what extends it, in any number of steps; and the declarers
/// of a method are the classes that have a row for it, with what the row names.
pub proof fn law_subtypes_and_declarers_read_the_rows(
    h: &Hierarchy,
    t: &String,
    below_t: Names,
    name: &String,
    desc: &String,
    all: Vec<(String, String)>,
    c: Name,
    p: Name,
)
    requires
        call_ensures(Hierarchy::subtypes, (h, t), below_t),
        call_ensures(Hierarchy::declarers, (h, name, desc), all),
        h.edges().len() <= usize::MAX,
    ensures
        below_t@.contains(c) <==> exists|names: Seq<Name>|
            #[trigger] ascent(h.edges(), names) && names[0] == c && names.last() == t@,
        (exists|i: int| 0 <= i < all@.len() && (#[trigger] all@[i]).0@ == c && all@[i].1@ == p)
            <==> h.decls().contains(
            seq![Datum::Text(c), Datum::Text(name@), Datum::Text(desc@), Datum::Text(p)],
        ),
{
    law_below_is_extending(h.edges(), t@, c);
    assert(pairs_up(all@, c, p) <==> h.decls().contains(rows::four_row(c, name@, desc@, p)));
}

} // verus!
