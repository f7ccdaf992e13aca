//! A program's facts over numbers, and what they settle by themselves.
use vstd::prelude::*;

use crate::codes::{initial, Names};
use crate::ir::{
    four_set, four_view, indexed_set, indexed_view, one_set, one_view, placed_view, three_set,
    three_view, two_set, two_view, Edb, Name, Program, Symbol,
};
use crate::table::Table;

verus! {

// ---------------------------------------------------------------------------
// Tables that stand for relations
// ---------------------------------------------------------------------------

/// The tuple that a row stands for.
pub open spec fn one_row(names: Seq<Name>, row: Seq<usize>) -> Name {
    names[row[0] as int]
}

pub open spec fn one_ok(names: Seq<Name>, row: Seq<usize>) -> bool {
    row.len() == 1 && row[0] < names.len()
}

/// The rows stand for exactly the tuples of a relation.
pub open spec fn means_one(t: Seq<Seq<usize>>, names: Seq<Name>, rel: Set<Name>) -> bool {
    &&& forall|i: int|
        0 <= i < t.len() ==> one_ok(names, #[trigger] t[i]) && rel.contains(one_row(names, t[i]))
    &&& forall|x: Name| #[trigger]
        rel.contains(x) ==> exists|i: int| 0 <= i < t.len() && one_row(names, #[trigger] t[i]) == x
}

pub proof fn lemma_grow_one(t: Seq<Seq<usize>>, a: Seq<Name>, b: Seq<Name>, rel: Set<Name>)
    requires
        means_one(t, a, rel),
        initial(a, b),
    ensures
        means_one(t, b, rel),
{
    assert forall|i: int| 0 <= i < t.len() implies one_ok(b, #[trigger] t[i]) && one_row(b, t[i])
        == one_row(a, t[i]) by {
        assert(one_ok(a, t[i]));
    }
    assert forall|x: Name| #[trigger] rel.contains(x) implies exists|i: int|
        0 <= i < t.len() && one_row(b, #[trigger] t[i]) == x by {
        let i = choose|i: int| 0 <= i < t.len() && one_row(a, #[trigger] t[i]) == x;
        assert(one_row(b, t[i]) == x);
    }
}

/// One more row, one more tuple.
proof fn lemma_add_one(
    t: Seq<Seq<usize>>,
    u: Seq<Seq<usize>>,
    names: Seq<Name>,
    rel: Set<Name>,
    row: Seq<usize>,
)
    requires
        means_one(t, names, rel),
        one_ok(names, row),
        u == (if t.contains(row) {
            t
        } else {
            t.push(row)
        }),
    ensures
        means_one(u, names, rel.insert(one_row(names, row))),
{
    let x0 = one_row(names, row);
    assert forall|x: Name| #[trigger] rel.insert(x0).contains(x) implies exists|i: int|
        0 <= i < u.len() && one_row(names, #[trigger] u[i]) == x by {
        if rel.contains(x) {
            let i = choose|i: int| 0 <= i < t.len() && one_row(names, #[trigger] t[i]) == x;
            assert(u[i] == t[i]);
        } else {
            let i = choose|i: int| 0 <= i < u.len() && u[i] == row;
            assert(u.contains(row)) by {
                if !t.contains(row) {
                    assert(u[t.len() as int] == row);
                }
            }
            assert(one_row(names, u[i]) == x);
        }
    }
}

/// A table stands for a relation if its rows are right and none is missing.
pub proof fn lemma_means_one(t: Seq<Seq<usize>>, names: Seq<Name>, rel: Set<Name>)
    requires
        forall|row: Seq<usize>| #[trigger]
            t.contains(row) ==> one_ok(names, row) && rel.contains(one_row(names, row)),
        forall|x: Name| #[trigger]
            rel.contains(x) ==> exists|row: Seq<usize>| #[trigger]
                t.contains(row) && one_row(names, row) == x,
    ensures
        means_one(t, names, rel),
{
    assert forall|i: int| 0 <= i < t.len() implies one_ok(names, #[trigger] t[i]) && rel.contains(
        one_row(names, t[i]),
    ) by {
        assert(t.contains(t[i]));
    }
    assert forall|x: Name| #[trigger] rel.contains(x) implies exists|i: int|
        0 <= i < t.len() && one_row(names, #[trigger] t[i]) == x by {
        let row = choose|row: Seq<usize>| #[trigger] t.contains(row) && one_row(names, row) == x;
        let i = choose|i: int| 0 <= i < t.len() && t[i] == row;
        assert(one_row(names, t[i]) == x);
    }
}

/// The row of a tuple.
pub proof fn lemma_find_one(t: Seq<Seq<usize>>, names: Seq<Name>, rel: Set<Name>, x: Name)
    -> (i: int)
    requires
        means_one(t, names, rel),
        rel.contains(x),
    ensures
        0 <= i < t.len(),
        one_row(names, t[i]) == x,
        one_ok(names, t[i]),
{
    choose|i: int| 0 <= i < t.len() && one_row(names, #[trigger] t[i]) == x
}

/// A tuple belongs to the relation if and only if its row is there.
pub proof fn lemma_has_one(t: Seq<Seq<usize>>, names: Seq<Name>, rel: Set<Name>, row: Seq<usize>)
    requires
        means_one(t, names, rel),
        names.no_duplicates(),
        one_ok(names, row),
    ensures
        t.contains(row) <==> rel.contains(one_row(names, row)),
{
    if rel.contains(one_row(names, row)) {
        let i = lemma_find_one(t, names, rel, one_row(names, row));
        assert(t[i] =~= row);
    }
}

/// The table of a relation's tuples.
fn table_one<A: Symbol>(names: &mut Names, v: &Vec<(A,)>) -> (t: Table)
    requires
        old(names).wf(),
    ensures
        final(names).wf(),
        initial(old(names)@, final(names)@),
        t.wf(),
        means_one(t@, final(names)@, one_set(v@)),
{
    let mut t = Table::new();
    let mut i: usize = 0;
    proof {
        assert(one_set(v@.take(0)) =~= Set::<Name>::empty());
    }
    while i < v.len()
        invariant
            i <= v@.len(),
            names.wf(),
            initial(old(names)@, names@),
            t.wf(),
            means_one(t@, names@, one_set(v@.take(i as int))),
        decreases v@.len() - i,
    {
        let ghost n0 = names@;
        let ghost t0 = t@;
        let c0: usize = names.number(v[i].0.text());
        let cells: Vec<usize> = vec![c0];
        let ghost row = cells@;
        t.insert(cells);
        proof {
            lemma_grow_one(t0, n0, names@, one_set(v@.take(i as int)));
            lemma_add_one(t0, t@, names@, one_set(v@.take(i as int)), row);
            assert(one_row(names@, row) == one_view(v@[i as int]));
            assert(one_set(v@.take(i + 1)) =~= one_set(v@.take(i as int)).insert(
                one_view(v@[i as int]),
            )) by {
                assert forall|x: Name|
                    one_set(v@.take(i as int)).insert(one_view(v@[i as int])).contains(x)
                        implies #[trigger] one_set(
                    v@.take(i + 1),
                ).contains(x) by {
                    if one_set(v@.take(i as int)).contains(x) {
                        let j = choose|j: int|
                            0 <= j < i && one_view(#[trigger] v@.take(i as int)[j]) == x;
                        assert(one_view(v@.take(i + 1)[j]) == x);
                    } else {
                        assert(one_view(v@.take(i + 1)[i as int]) == x);
                    }
                }
                assert forall|x: Name| #[trigger]
                    one_set(v@.take(i + 1)).contains(x) implies one_set(v@.take(i as int)).insert(
                    one_view(v@[i as int]),
                ).contains(x) by {
                    let j = choose|j: int| 0 <= j < i + 1
                        && one_view(#[trigger] v@.take(i + 1)[j]) == x;
                    if j < i {
                        assert(one_view(v@.take(i as int)[j]) == x);
                    }
                }
            }
        }
        i += 1;
    }
    proof {
        assert(v@.take(i as int) =~= v@);
    }
    t
}

/// The tuple that a row stands for.
pub open spec fn two_row(names: Seq<Name>, row: Seq<usize>) -> (Name, Name) {
    (names[row[0] as int], names[row[1] as int])
}

pub open spec fn two_ok(names: Seq<Name>, row: Seq<usize>) -> bool {
    row.len() == 2 && row[0] < names.len() && row[1] < names.len()
}

/// The rows stand for exactly the tuples of a relation.
pub open spec fn means_two(t: Seq<Seq<usize>>, names: Seq<Name>, rel: Set<(Name, Name)>) -> bool {
    &&& forall|i: int|
        0 <= i < t.len() ==> two_ok(names, #[trigger] t[i]) && rel.contains(two_row(names, t[i]))
    &&& forall|x: (Name, Name)| #[trigger]
        rel.contains(x) ==> exists|i: int| 0 <= i < t.len() && two_row(names, #[trigger] t[i]) == x
}

pub proof fn lemma_grow_two(t: Seq<Seq<usize>>, a: Seq<Name>, b: Seq<Name>, rel: Set<(Name, Name)>)
    requires
        means_two(t, a, rel),
        initial(a, b),
    ensures
        means_two(t, b, rel),
{
    assert forall|i: int| 0 <= i < t.len() implies two_ok(b, #[trigger] t[i]) && two_row(b, t[i])
        == two_row(a, t[i]) by {
        assert(two_ok(a, t[i]));
    }
    assert forall|x: (Name, Name)| #[trigger] rel.contains(x) implies exists|i: int|
        0 <= i < t.len() && two_row(b, #[trigger] t[i]) == x by {
        let i = choose|i: int| 0 <= i < t.len() && two_row(a, #[trigger] t[i]) == x;
        assert(two_row(b, t[i]) == x);
    }
}

/// One more row, one more tuple.
proof fn lemma_add_two(
    t: Seq<Seq<usize>>,
    u: Seq<Seq<usize>>,
    names: Seq<Name>,
    rel: Set<(Name, Name)>,
    row: Seq<usize>,
)
    requires
        means_two(t, names, rel),
        two_ok(names, row),
        u == (if t.contains(row) {
            t
        } else {
            t.push(row)
        }),
    ensures
        means_two(u, names, rel.insert(two_row(names, row))),
{
    let x0 = two_row(names, row);
    assert forall|x: (Name, Name)| #[trigger] rel.insert(x0).contains(x) implies exists|i: int|
        0 <= i < u.len() && two_row(names, #[trigger] u[i]) == x by {
        if rel.contains(x) {
            let i = choose|i: int| 0 <= i < t.len() && two_row(names, #[trigger] t[i]) == x;
            assert(u[i] == t[i]);
        } else {
            let i = choose|i: int| 0 <= i < u.len() && u[i] == row;
            assert(u.contains(row)) by {
                if !t.contains(row) {
                    assert(u[t.len() as int] == row);
                }
            }
            assert(two_row(names, u[i]) == x);
        }
    }
}

/// A table stands for a relation if its rows are right and none is missing.
pub proof fn lemma_means_two(t: Seq<Seq<usize>>, names: Seq<Name>, rel: Set<(Name, Name)>)
    requires
        forall|row: Seq<usize>| #[trigger]
            t.contains(row) ==> two_ok(names, row) && rel.contains(two_row(names, row)),
        forall|x: (Name, Name)| #[trigger]
            rel.contains(x) ==> exists|row: Seq<usize>| #[trigger]
                t.contains(row) && two_row(names, row) == x,
    ensures
        means_two(t, names, rel),
{
    assert forall|i: int| 0 <= i < t.len() implies two_ok(names, #[trigger] t[i]) && rel.contains(
        two_row(names, t[i]),
    ) by {
        assert(t.contains(t[i]));
    }
    assert forall|x: (Name, Name)| #[trigger] rel.contains(x) implies exists|i: int|
        0 <= i < t.len() && two_row(names, #[trigger] t[i]) == x by {
        let row = choose|row: Seq<usize>| #[trigger] t.contains(row) && two_row(names, row) == x;
        let i = choose|i: int| 0 <= i < t.len() && t[i] == row;
        assert(two_row(names, t[i]) == x);
    }
}

/// The row of a tuple.
pub proof fn lemma_find_two(t: Seq<Seq<usize>>, names: Seq<Name>, rel: Set<(Name, Name)>,
    x: (Name, Name)) -> (i: int)
    requires
        means_two(t, names, rel),
        rel.contains(x),
    ensures
        0 <= i < t.len(),
        two_row(names, t[i]) == x,
        two_ok(names, t[i]),
{
    choose|i: int| 0 <= i < t.len() && two_row(names, #[trigger] t[i]) == x
}

/// A tuple belongs to the relation if and only if its row is there.
pub proof fn lemma_has_two(t: Seq<Seq<usize>>, names: Seq<Name>, rel: Set<(Name, Name)>,
    row: Seq<usize>)
    requires
        means_two(t, names, rel),
        names.no_duplicates(),
        two_ok(names, row),
    ensures
        t.contains(row) <==> rel.contains(two_row(names, row)),
{
    if rel.contains(two_row(names, row)) {
        let i = lemma_find_two(t, names, rel, two_row(names, row));
        assert(t[i] =~= row);
    }
}

/// The table of a relation's tuples.
fn table_two<A: Symbol, B: Symbol>(names: &mut Names, v: &Vec<(A, B)>) -> (t: Table)
    requires
        old(names).wf(),
    ensures
        final(names).wf(),
        initial(old(names)@, final(names)@),
        t.wf(),
        means_two(t@, final(names)@, two_set(v@)),
{
    let mut t = Table::new();
    let mut i: usize = 0;
    proof {
        assert(two_set(v@.take(0)) =~= Set::<(Name, Name)>::empty());
    }
    while i < v.len()
        invariant
            i <= v@.len(),
            names.wf(),
            initial(old(names)@, names@),
            t.wf(),
            means_two(t@, names@, two_set(v@.take(i as int))),
        decreases v@.len() - i,
    {
        let ghost n0 = names@;
        let ghost t0 = t@;
        let c0: usize = names.number(v[i].0.text());
        let c1: usize = names.number(v[i].1.text());
        let cells: Vec<usize> = vec![c0, c1];
        let ghost row = cells@;
        t.insert(cells);
        proof {
            lemma_grow_two(t0, n0, names@, two_set(v@.take(i as int)));
            lemma_add_two(t0, t@, names@, two_set(v@.take(i as int)), row);
            assert(two_row(names@, row) == two_view(v@[i as int]));
            assert(two_set(v@.take(i + 1)) =~= two_set(v@.take(i as int)).insert(
                two_view(v@[i as int]),
            )) by {
                assert forall|x: (Name, Name)|
                    two_set(v@.take(i as int)).insert(two_view(v@[i as int])).contains(x)
                        implies #[trigger] two_set(
                    v@.take(i + 1),
                ).contains(x) by {
                    if two_set(v@.take(i as int)).contains(x) {
                        let j = choose|j: int|
                            0 <= j < i && two_view(#[trigger] v@.take(i as int)[j]) == x;
                        assert(two_view(v@.take(i + 1)[j]) == x);
                    } else {
                        assert(two_view(v@.take(i + 1)[i as int]) == x);
                    }
                }
                assert forall|x: (Name, Name)| #[trigger]
                    two_set(v@.take(i + 1)).contains(x) implies two_set(v@.take(i as int)).insert(
                    two_view(v@[i as int]),
                ).contains(x) by {
                    let j = choose|j: int| 0 <= j < i + 1
                        && two_view(#[trigger] v@.take(i + 1)[j]) == x;
                    if j < i {
                        assert(two_view(v@.take(i as int)[j]) == x);
                    }
                }
            }
        }
        i += 1;
    }
    proof {
        assert(v@.take(i as int) =~= v@);
    }
    t
}

/// The tuple that a row stands for.
pub open spec fn three_row(names: Seq<Name>, row: Seq<usize>) -> (Name, Name, Name) {
    (names[row[0] as int], names[row[1] as int], names[row[2] as int])
}

pub open spec fn three_ok(names: Seq<Name>, row: Seq<usize>) -> bool {
    row.len() == 3 && row[0] < names.len() && row[1] < names.len() && row[2] < names.len()
}

/// The rows stand for exactly the tuples of a relation.
pub open spec fn means_three(t: Seq<Seq<usize>>, names: Seq<Name>, rel: Set<(Name, Name, Name)>)
    -> bool {
    &&& forall|i: int|
        0 <= i < t.len() ==> three_ok(names, #[trigger] t[i])
            && rel.contains(three_row(names, t[i]))
    &&& forall|x: (Name, Name, Name)| #[trigger]
        rel.contains(x) ==> exists|i: int| 0 <= i < t.len()
            && three_row(names, #[trigger] t[i]) == x
}

pub proof fn lemma_grow_three(t: Seq<Seq<usize>>, a: Seq<Name>, b: Seq<Name>,
    rel: Set<(Name, Name, Name)>)
    requires
        means_three(t, a, rel),
        initial(a, b),
    ensures
        means_three(t, b, rel),
{
    assert forall|i: int| 0 <= i < t.len() implies three_ok(b, #[trigger] t[i])
        && three_row(b, t[i])
        == three_row(a, t[i]) by {
        assert(three_ok(a, t[i]));
    }
    assert forall|x: (Name, Name, Name)| #[trigger] rel.contains(x) implies exists|i: int|
        0 <= i < t.len() && three_row(b, #[trigger] t[i]) == x by {
        let i = choose|i: int| 0 <= i < t.len() && three_row(a, #[trigger] t[i]) == x;
        assert(three_row(b, t[i]) == x);
    }
}

/// One more row, one more tuple.
proof fn lemma_add_three(
    t: Seq<Seq<usize>>,
    u: Seq<Seq<usize>>,
    names: Seq<Name>,
    rel: Set<(Name, Name, Name)>,
    row: Seq<usize>,
)
    requires
        means_three(t, names, rel),
        three_ok(names, row),
        u == (if t.contains(row) {
            t
        } else {
            t.push(row)
        }),
    ensures
        means_three(u, names, rel.insert(three_row(names, row))),
{
    let x0 = three_row(names, row);
    assert forall|x: (Name, Name, Name)| #[trigger] rel.insert(x0).contains(x)
        implies exists|i: int|
        0 <= i < u.len() && three_row(names, #[trigger] u[i]) == x by {
        if rel.contains(x) {
            let i = choose|i: int| 0 <= i < t.len() && three_row(names, #[trigger] t[i]) == x;
            assert(u[i] == t[i]);
        } else {
            let i = choose|i: int| 0 <= i < u.len() && u[i] == row;
            assert(u.contains(row)) by {
                if !t.contains(row) {
                    assert(u[t.len() as int] == row);
                }
            }
            assert(three_row(names, u[i]) == x);
        }
    }
}

/// A table stands for a relation if its rows are right and none is missing.
pub proof fn lemma_means_three(t: Seq<Seq<usize>>, names: Seq<Name>, rel: Set<(Name, Name, Name)>)
    requires
        forall|row: Seq<usize>| #[trigger]
            t.contains(row) ==> three_ok(names, row) && rel.contains(three_row(names, row)),
        forall|x: (Name, Name, Name)| #[trigger]
            rel.contains(x) ==> exists|row: Seq<usize>| #[trigger]
                t.contains(row) && three_row(names, row) == x,
    ensures
        means_three(t, names, rel),
{
    assert forall|i: int| 0 <= i < t.len() implies three_ok(names, #[trigger] t[i]) && rel.contains(
        three_row(names, t[i]),
    ) by {
        assert(t.contains(t[i]));
    }
    assert forall|x: (Name, Name, Name)| #[trigger] rel.contains(x) implies exists|i: int|
        0 <= i < t.len() && three_row(names, #[trigger] t[i]) == x by {
        let row = choose|row: Seq<usize>| #[trigger] t.contains(row) && three_row(names, row) == x;
        let i = choose|i: int| 0 <= i < t.len() && t[i] == row;
        assert(three_row(names, t[i]) == x);
    }
}

/// The row of a tuple.
pub proof fn lemma_find_three(t: Seq<Seq<usize>>, names: Seq<Name>, rel: Set<(Name, Name, Name)>,
    x: (Name, Name, Name)) -> (i: int)
    requires
        means_three(t, names, rel),
        rel.contains(x),
    ensures
        0 <= i < t.len(),
        three_row(names, t[i]) == x,
        three_ok(names, t[i]),
{
    choose|i: int| 0 <= i < t.len() && three_row(names, #[trigger] t[i]) == x
}

/// The table of a relation's tuples.
fn table_three<A: Symbol, B: Symbol, C: Symbol>(names: &mut Names, v: &Vec<(A, B, C)>) -> (t: Table)
    requires
        old(names).wf(),
    ensures
        final(names).wf(),
        initial(old(names)@, final(names)@),
        t.wf(),
        means_three(t@, final(names)@, three_set(v@)),
{
    let mut t = Table::new();
    let mut i: usize = 0;
    proof {
        assert(three_set(v@.take(0)) =~= Set::<(Name, Name, Name)>::empty());
    }
    while i < v.len()
        invariant
            i <= v@.len(),
            names.wf(),
            initial(old(names)@, names@),
            t.wf(),
            means_three(t@, names@, three_set(v@.take(i as int))),
        decreases v@.len() - i,
    {
        let ghost n0 = names@;
        let ghost t0 = t@;
        let c0: usize = names.number(v[i].0.text());
        let c1: usize = names.number(v[i].1.text());
        let c2: usize = names.number(v[i].2.text());
        let cells: Vec<usize> = vec![c0, c1, c2];
        let ghost row = cells@;
        t.insert(cells);
        proof {
            lemma_grow_three(t0, n0, names@, three_set(v@.take(i as int)));
            lemma_add_three(t0, t@, names@, three_set(v@.take(i as int)), row);
            assert(three_row(names@, row) == three_view(v@[i as int]));
            assert(three_set(v@.take(i + 1)) =~= three_set(v@.take(i as int)).insert(
                three_view(v@[i as int]),
            )) by {
                assert forall|x: (Name, Name, Name)|
                    three_set(v@.take(i as int)).insert(three_view(v@[i as int])).contains(x)
                        implies #[trigger] three_set(
                    v@.take(i + 1),
                ).contains(x) by {
                    if three_set(v@.take(i as int)).contains(x) {
                        let j = choose|j: int|
                            0 <= j < i && three_view(#[trigger] v@.take(i as int)[j]) == x;
                        assert(three_view(v@.take(i + 1)[j]) == x);
                    } else {
                        assert(three_view(v@.take(i + 1)[i as int]) == x);
                    }
                }
                assert forall|x: (Name, Name, Name)| #[trigger]
                    three_set(v@.take(i + 1)).contains(x)
                        implies three_set(v@.take(i as int)).insert(
                    three_view(v@[i as int]),
                ).contains(x) by {
                    let j = choose|j: int| 0 <= j < i + 1
                        && three_view(#[trigger] v@.take(i + 1)[j]) == x;
                    if j < i {
                        assert(three_view(v@.take(i as int)[j]) == x);
                    }
                }
            }
        }
        i += 1;
    }
    proof {
        assert(v@.take(i as int) =~= v@);
    }
    t
}

/// The tuple that a row stands for.
pub open spec fn four_row(names: Seq<Name>, row: Seq<usize>) -> (Name, Name, Name, Name) {
    (names[row[0] as int], names[row[1] as int], names[row[2] as int], names[row[3] as int])
}

pub open spec fn four_ok(names: Seq<Name>, row: Seq<usize>) -> bool {
    row.len() == 4 && row[0] < names.len() && row[1] < names.len() && row[2] < names.len()
        && row[3] < names.len()
}

/// The rows stand for exactly the tuples of a relation.
pub open spec fn means_four(t: Seq<Seq<usize>>, names: Seq<Name>,
    rel: Set<(Name, Name, Name, Name)>) -> bool {
    &&& forall|i: int|
        0 <= i < t.len() ==> four_ok(names, #[trigger] t[i]) && rel.contains(four_row(names, t[i]))
    &&& forall|x: (Name, Name, Name, Name)| #[trigger]
        rel.contains(x) ==> exists|i: int| 0 <= i < t.len() && four_row(names, #[trigger] t[i]) == x
}

pub proof fn lemma_grow_four(t: Seq<Seq<usize>>, a: Seq<Name>, b: Seq<Name>,
    rel: Set<(Name, Name, Name, Name)>)
    requires
        means_four(t, a, rel),
        initial(a, b),
    ensures
        means_four(t, b, rel),
{
    assert forall|i: int| 0 <= i < t.len() implies four_ok(b, #[trigger] t[i]) && four_row(b, t[i])
        == four_row(a, t[i]) by {
        assert(four_ok(a, t[i]));
    }
    assert forall|x: (Name, Name, Name, Name)| #[trigger] rel.contains(x) implies exists|i: int|
        0 <= i < t.len() && four_row(b, #[trigger] t[i]) == x by {
        let i = choose|i: int| 0 <= i < t.len() && four_row(a, #[trigger] t[i]) == x;
        assert(four_row(b, t[i]) == x);
    }
}

/// One more row, one more tuple.
proof fn lemma_add_four(
    t: Seq<Seq<usize>>,
    u: Seq<Seq<usize>>,
    names: Seq<Name>,
    rel: Set<(Name, Name, Name, Name)>,
    row: Seq<usize>,
)
    requires
        means_four(t, names, rel),
        four_ok(names, row),
        u == (if t.contains(row) {
            t
        } else {
            t.push(row)
        }),
    ensures
        means_four(u, names, rel.insert(four_row(names, row))),
{
    let x0 = four_row(names, row);
    assert forall|x: (Name, Name, Name, Name)| #[trigger] rel.insert(x0).contains(x)
        implies exists|i: int|
        0 <= i < u.len() && four_row(names, #[trigger] u[i]) == x by {
        if rel.contains(x) {
            let i = choose|i: int| 0 <= i < t.len() && four_row(names, #[trigger] t[i]) == x;
            assert(u[i] == t[i]);
        } else {
            let i = choose|i: int| 0 <= i < u.len() && u[i] == row;
            assert(u.contains(row)) by {
                if !t.contains(row) {
                    assert(u[t.len() as int] == row);
                }
            }
            assert(four_row(names, u[i]) == x);
        }
    }
}

/// The row of a tuple.
pub proof fn lemma_find_four(t: Seq<Seq<usize>>, names: Seq<Name>,
    rel: Set<(Name, Name, Name, Name)>, x: (Name, Name, Name, Name)) -> (i: int)
    requires
        means_four(t, names, rel),
        rel.contains(x),
    ensures
        0 <= i < t.len(),
        four_row(names, t[i]) == x,
        four_ok(names, t[i]),
{
    choose|i: int| 0 <= i < t.len() && four_row(names, #[trigger] t[i]) == x
}

/// The table of a relation's tuples.
pub fn table_four<A: Symbol, B: Symbol, C: Symbol,
    D: Symbol>(names: &mut Names, v: &Vec<(A, B, C, D)>) -> (t: Table)
    requires
        old(names).wf(),
    ensures
        final(names).wf(),
        initial(old(names)@, final(names)@),
        t.wf(),
        means_four(t@, final(names)@, four_set(v@)),
{
    let mut t = Table::new();
    let mut i: usize = 0;
    proof {
        assert(four_set(v@.take(0)) =~= Set::<(Name, Name, Name, Name)>::empty());
    }
    while i < v.len()
        invariant
            i <= v@.len(),
            names.wf(),
            initial(old(names)@, names@),
            t.wf(),
            means_four(t@, names@, four_set(v@.take(i as int))),
        decreases v@.len() - i,
    {
        let ghost n0 = names@;
        let ghost t0 = t@;
        let c0: usize = names.number(v[i].0.text());
        let c1: usize = names.number(v[i].1.text());
        let c2: usize = names.number(v[i].2.text());
        let c3: usize = names.number(v[i].3.text());
        let cells: Vec<usize> = vec![c0, c1, c2, c3];
        let ghost row = cells@;
        t.insert(cells);
        proof {
            lemma_grow_four(t0, n0, names@, four_set(v@.take(i as int)));
            lemma_add_four(t0, t@, names@, four_set(v@.take(i as int)), row);
            assert(four_row(names@, row) == four_view(v@[i as int]));
            assert(four_set(v@.take(i + 1)) =~= four_set(v@.take(i as int)).insert(
                four_view(v@[i as int]),
            )) by {
                assert forall|x: (Name, Name, Name, Name)|
                    four_set(v@.take(i as int)).insert(four_view(v@[i as int])).contains(x)
                        implies #[trigger] four_set(
                    v@.take(i + 1),
                ).contains(x) by {
                    if four_set(v@.take(i as int)).contains(x) {
                        let j = choose|j: int|
                            0 <= j < i && four_view(#[trigger] v@.take(i as int)[j]) == x;
                        assert(four_view(v@.take(i + 1)[j]) == x);
                    } else {
                        assert(four_view(v@.take(i + 1)[i as int]) == x);
                    }
                }
                assert forall|x: (Name, Name, Name, Name)| #[trigger]
                    four_set(v@.take(i + 1)).contains(x) implies four_set(v@.take(i as int)).insert(
                    four_view(v@[i as int]),
                ).contains(x) by {
                    let j = choose|j: int| 0 <= j < i + 1
                        && four_view(#[trigger] v@.take(i + 1)[j]) == x;
                    if j < i {
                        assert(four_view(v@.take(i as int)[j]) == x);
                    }
                }
            }
        }
        i += 1;
    }
    proof {
        assert(v@.take(i as int) =~= v@);
    }
    t
}

/// The tuple that a row stands for.
pub open spec fn indexed_row(names: Seq<Name>, row: Seq<usize>) -> (Name, usize, Name) {
    (names[row[0] as int], row[1], names[row[2] as int])
}

pub open spec fn indexed_ok(names: Seq<Name>, row: Seq<usize>) -> bool {
    row.len() == 3 && row[0] < names.len() && row[2] < names.len()
}

/// The rows stand for exactly the tuples of a relation.
pub open spec fn means_indexed(t: Seq<Seq<usize>>, names: Seq<Name>, rel: Set<(Name, usize, Name)>)
    -> bool {
    &&& forall|i: int|
        0 <= i < t.len() ==> indexed_ok(names, #[trigger] t[i])
            && rel.contains(indexed_row(names, t[i]))
    &&& forall|x: (Name, usize, Name)| #[trigger]
        rel.contains(x) ==> exists|i: int| 0 <= i < t.len()
            && indexed_row(names, #[trigger] t[i]) == x
}

pub proof fn lemma_grow_indexed(t: Seq<Seq<usize>>, a: Seq<Name>, b: Seq<Name>,
    rel: Set<(Name, usize, Name)>)
    requires
        means_indexed(t, a, rel),
        initial(a, b),
    ensures
        means_indexed(t, b, rel),
{
    assert forall|i: int| 0 <= i < t.len() implies indexed_ok(b, #[trigger] t[i])
        && indexed_row(b, t[i])
        == indexed_row(a, t[i]) by {
        assert(indexed_ok(a, t[i]));
    }
    assert forall|x: (Name, usize, Name)| #[trigger] rel.contains(x) implies exists|i: int|
        0 <= i < t.len() && indexed_row(b, #[trigger] t[i]) == x by {
        let i = choose|i: int| 0 <= i < t.len() && indexed_row(a, #[trigger] t[i]) == x;
        assert(indexed_row(b, t[i]) == x);
    }
}

/// One more row, one more tuple.
proof fn lemma_add_indexed(
    t: Seq<Seq<usize>>,
    u: Seq<Seq<usize>>,
    names: Seq<Name>,
    rel: Set<(Name, usize, Name)>,
    row: Seq<usize>,
)
    requires
        means_indexed(t, names, rel),
        indexed_ok(names, row),
        u == (if t.contains(row) {
            t
        } else {
            t.push(row)
        }),
    ensures
        means_indexed(u, names, rel.insert(indexed_row(names, row))),
{
    let x0 = indexed_row(names, row);
    assert forall|x: (Name, usize, Name)| #[trigger] rel.insert(x0).contains(x)
        implies exists|i: int|
        0 <= i < u.len() && indexed_row(names, #[trigger] u[i]) == x by {
        if rel.contains(x) {
            let i = choose|i: int| 0 <= i < t.len() && indexed_row(names, #[trigger] t[i]) == x;
            assert(u[i] == t[i]);
        } else {
            let i = choose|i: int| 0 <= i < u.len() && u[i] == row;
            assert(u.contains(row)) by {
                if !t.contains(row) {
                    assert(u[t.len() as int] == row);
                }
            }
            assert(indexed_row(names, u[i]) == x);
        }
    }
}

/// The row of a tuple.
pub proof fn lemma_find_indexed(t: Seq<Seq<usize>>, names: Seq<Name>, rel: Set<(Name, usize, Name)>,
    x: (Name, usize, Name)) -> (i: int)
    requires
        means_indexed(t, names, rel),
        rel.contains(x),
    ensures
        0 <= i < t.len(),
        indexed_row(names, t[i]) == x,
        indexed_ok(names, t[i]),
{
    choose|i: int| 0 <= i < t.len() && indexed_row(names, #[trigger] t[i]) == x
}

/// The table of a relation's tuples.
fn table_indexed<A: Symbol, C: Symbol>(names: &mut Names, v: &Vec<(A, usize, C)>) -> (t: Table)
    requires
        old(names).wf(),
    ensures
        final(names).wf(),
        initial(old(names)@, final(names)@),
        t.wf(),
        means_indexed(t@, final(names)@, indexed_set(v@)),
{
    let mut t = Table::new();
    let mut i: usize = 0;
    proof {
        assert(indexed_set(v@.take(0)) =~= Set::<(Name, usize, Name)>::empty());
    }
    while i < v.len()
        invariant
            i <= v@.len(),
            names.wf(),
            initial(old(names)@, names@),
            t.wf(),
            means_indexed(t@, names@, indexed_set(v@.take(i as int))),
        decreases v@.len() - i,
    {
        let ghost n0 = names@;
        let ghost t0 = t@;
        let c0: usize = names.number(v[i].0.text());
        let c1: usize = v[i].1;
        let c2: usize = names.number(v[i].2.text());
        let cells: Vec<usize> = vec![c0, c1, c2];
        let ghost row = cells@;
        t.insert(cells);
        proof {
            lemma_grow_indexed(t0, n0, names@, indexed_set(v@.take(i as int)));
            lemma_add_indexed(t0, t@, names@, indexed_set(v@.take(i as int)), row);
            assert(indexed_row(names@, row) == indexed_view(v@[i as int]));
            assert(indexed_set(v@.take(i + 1)) =~= indexed_set(v@.take(i as int)).insert(
                indexed_view(v@[i as int]),
            )) by {
                assert forall|x: (Name, usize, Name)|
                    indexed_set(v@.take(i as int)).insert(indexed_view(v@[i as int])).contains(x)
                        implies #[trigger] indexed_set(
                    v@.take(i + 1),
                ).contains(x) by {
                    if indexed_set(v@.take(i as int)).contains(x) {
                        let j = choose|j: int|
                            0 <= j < i && indexed_view(#[trigger] v@.take(i as int)[j]) == x;
                        assert(indexed_view(v@.take(i + 1)[j]) == x);
                    } else {
                        assert(indexed_view(v@.take(i + 1)[i as int]) == x);
                    }
                }
                assert forall|x: (Name, usize, Name)| #[trigger]
                    indexed_set(v@.take(i + 1)).contains(x)
                        implies indexed_set(v@.take(i as int)).insert(
                    indexed_view(v@[i as int]),
                ).contains(x) by {
                    let j = choose|j: int| 0 <= j < i + 1
                        && indexed_view(#[trigger] v@.take(i + 1)[j]) == x;
                    if j < i {
                        assert(indexed_view(v@.take(i as int)[j]) == x);
                    }
                }
            }
        }
        i += 1;
    }
    proof {
        assert(v@.take(i as int) =~= v@);
    }
    t
}

proof fn lemma_initial_trans(a: Seq<Name>, b: Seq<Name>, c: Seq<Name>)
    requires
        initial(a, b),
        initial(b, c),
    ensures
        initial(a, c),
{
    assert forall|i: int| 0 <= i < a.len() implies #[trigger] c[i] == a[i] by {
        assert(b[i] == a[i]);
    }
}

/// Statements with the procedures they stand in.
pub open spec fn homes(e: Edb) -> Set<(Name, Name)> {
    Set::new(|x: (Name, Name)| e.stands_in(x.0, x.1))
}

spec fn homes_of<A: Symbol, B: Symbol>(v: Seq<(A, B, usize)>) -> Set<(Name, Name)> {
    Set::new(
        |x: (Name, Name)|
            exists|i: int|
                0 <= i < v.len() && (placed_view(#[trigger] v[i]).0, placed_view(v[i]).1) == x,
    )
}

fn table_homes<A: Symbol, B: Symbol>(names: &mut Names, v: &Vec<(A, B, usize)>) -> (t: Table)
    requires
        old(names).wf(),
    ensures
        final(names).wf(),
        initial(old(names)@, final(names)@),
        t.wf(),
        means_two(t@, final(names)@, homes_of(v@)),
{
    let mut t = Table::new();
    let mut i: usize = 0;
    proof {
        assert(homes_of(v@.take(0)) =~= Set::<(Name, Name)>::empty());
    }
    while i < v.len()
        invariant
            i <= v@.len(),
            names.wf(),
            initial(old(names)@, names@),
            t.wf(),
            means_two(t@, names@, homes_of(v@.take(i as int))),
        decreases v@.len() - i,
    {
        let ghost n0 = names@;
        let ghost t0 = t@;
        let c0: usize = names.number(v[i].0.text());
        let c1: usize = names.number(v[i].1.text());
        let cells: Vec<usize> = vec![c0, c1];
        let ghost row = cells@;
        t.insert(cells);
        proof {
            let old_set = homes_of(v@.take(i as int));
            let new = (placed_view(v@[i as int]).0, placed_view(v@[i as int]).1);
            lemma_grow_two(t0, n0, names@, old_set);
            lemma_add_two(t0, t@, names@, old_set, row);
            assert(two_row(names@, row) == new);
            assert(homes_of(v@.take(i + 1)) =~= old_set.insert(new)) by {
                assert forall|x: (Name, Name)|
                    old_set.insert(new).contains(x) implies #[trigger] homes_of(
                    v@.take(i + 1),
                ).contains(x) by {
                    if old_set.contains(x) {
                        let j = choose|j: int|
                            0 <= j < i && (
                                placed_view(#[trigger] v@.take(i as int)[j]).0,
                                placed_view(v@.take(i as int)[j]).1,
                            ) == x;
                        assert((
                            placed_view(v@.take(i + 1)[j]).0,
                            placed_view(v@.take(i + 1)[j]).1,
                        ) == x);
                    } else {
                        assert((
                            placed_view(v@.take(i + 1)[i as int]).0,
                            placed_view(v@.take(i + 1)[i as int]).1,
                        ) == x);
                    }
                }
                assert forall|x: (Name, Name)| #[trigger]
                    homes_of(v@.take(i + 1)).contains(x)
                        implies old_set.insert(new).contains(x) by {
                    let j = choose|j: int|
                        0 <= j < i + 1 && (
                            placed_view(#[trigger] v@.take(i + 1)[j]).0,
                            placed_view(v@.take(i + 1)[j]).1,
                        ) == x;
                    if j < i {
                        assert((
                            placed_view(v@.take(i as int)[j]).0,
                            placed_view(v@.take(i as int)[j]).1,
                        ) == x);
                    }
                }
            }
        }
        i += 1;
    }
    proof {
        assert(v@.take(i as int) =~= v@);
    }
    t
}

// ---------------------------------------------------------------------------
// The facts of a program
// ---------------------------------------------------------------------------

/// The relations that the analysis reads, over numbers.
pub struct Facts {
    pub procedure: Table,
    pub entry: Table,
    pub alloc: Table,
    pub alloc_type: Table,
    pub const_assign: Table,
    pub mov: Table,
    pub load_field: Table,
    pub store_field: Table,
    pub load_index_const: Table,
    pub store_index_const: Table,
    pub load_index_var: Table,
    pub store_index_var: Table,
    pub direct_call: Table,
    pub virtual_call: Table,
    pub actual_arg: Table,
    pub bind_ret: Table,
    pub formal: Table,
    pub ret: Table,
    pub lookup: Table,
    /// Statements with the procedures they stand in.
    pub homes: Table,
}

impl Facts {
    /// The tables stand for the relations of `e`.
    pub open spec fn ok(&self, names: Seq<Name>, e: Edb) -> bool {
        &&& self.procedure.wf() && means_one(self.procedure@, names, e.procedure)
        &&& self.entry.wf() && means_one(self.entry@, names, e.entry)
        &&& self.alloc.wf() && means_three(self.alloc@, names, e.alloc)
        &&& self.alloc_type.wf() && means_two(self.alloc_type@, names, e.alloc_type)
        &&& self.const_assign.wf() && means_three(self.const_assign@, names, e.const_assign)
        &&& self.mov.wf() && means_three(self.mov@, names, e.mov)
        &&& self.load_field.wf() && means_four(self.load_field@, names, e.load_field)
        &&& self.store_field.wf() && means_four(self.store_field@, names, e.store_field)
        &&& self.load_index_const.wf()
            && means_four(self.load_index_const@, names, e.load_index_const)
        &&& self.store_index_const.wf()
            && means_four(self.store_index_const@, names, e.store_index_const)
        &&& self.load_index_var.wf() && means_four(self.load_index_var@, names, e.load_index_var)
        &&& self.store_index_var.wf() && means_four(self.store_index_var@, names, e.store_index_var)
        &&& self.direct_call.wf() && means_two(self.direct_call@, names, e.direct_call)
        &&& self.virtual_call.wf() && means_three(self.virtual_call@, names, e.virtual_call)
        &&& self.actual_arg.wf() && means_indexed(self.actual_arg@, names, e.actual_arg)
        &&& self.bind_ret.wf() && means_two(self.bind_ret@, names, e.bind_ret)
        &&& self.formal.wf() && means_indexed(self.formal@, names, e.formal)
        &&& self.ret.wf() && means_two(self.ret@, names, e.ret)
        &&& self.lookup.wf() && means_three(self.lookup@, names, e.lookup)
        &&& self.homes.wf() && means_two(self.homes@, names, homes(e))
    }

    /// The facts of `prog`, with numbers for its names.
    pub fn of_program(names: &mut Names, prog: &Program) -> (r: Self)
        requires
            old(names).wf(),
        ensures
            final(names).wf(),
            initial(old(names)@, final(names)@),
            r.ok(final(names)@, prog@),
    {
        let procedure = table_one(names, &prog.procedure);
        let ghost n0 = names@;
        let entry = table_one(names, &prog.entry);
        let ghost n1 = names@;
        let alloc = table_three(names, &prog.alloc);
        let ghost n2 = names@;
        let alloc_type = table_two(names, &prog.alloc_type);
        let ghost n3 = names@;
        let const_assign = table_three(names, &prog.const_assign);
        let ghost n4 = names@;
        let mov = table_three(names, &prog.mov);
        let ghost n5 = names@;
        let load_field = table_four(names, &prog.load_field);
        let ghost n6 = names@;
        let store_field = table_four(names, &prog.store_field);
        let ghost n7 = names@;
        let load_index_const = table_four(names, &prog.load_index_const);
        let ghost n8 = names@;
        let store_index_const = table_four(names, &prog.store_index_const);
        let ghost n9 = names@;
        let load_index_var = table_four(names, &prog.load_index_var);
        let ghost n10 = names@;
        let store_index_var = table_four(names, &prog.store_index_var);
        let ghost n11 = names@;
        let direct_call = table_two(names, &prog.direct_call);
        let ghost n12 = names@;
        let virtual_call = table_three(names, &prog.virtual_call);
        let ghost n13 = names@;
        let actual_arg = table_indexed(names, &prog.actual_arg);
        let ghost n14 = names@;
        let bind_ret = table_two(names, &prog.bind_ret);
        let ghost n15 = names@;
        let formal = table_indexed(names, &prog.formal);
        let ghost n16 = names@;
        let ret = table_two(names, &prog.ret);
        let ghost n17 = names@;
        let lookup = table_three(names, &prog.lookup);
        let ghost n18 = names@;
        let homes_table = table_homes(names, &prog.in_proc);
        proof {
            let last = names@;
            lemma_initial_trans(n17, n18, last);
            lemma_initial_trans(n16, n17, last);
            lemma_initial_trans(n15, n16, last);
            lemma_initial_trans(n14, n15, last);
            lemma_initial_trans(n13, n14, last);
            lemma_initial_trans(n12, n13, last);
            lemma_initial_trans(n11, n12, last);
            lemma_initial_trans(n10, n11, last);
            lemma_initial_trans(n9, n10, last);
            lemma_initial_trans(n8, n9, last);
            lemma_initial_trans(n7, n8, last);
            lemma_initial_trans(n6, n7, last);
            lemma_initial_trans(n5, n6, last);
            lemma_initial_trans(n4, n5, last);
            lemma_initial_trans(n3, n4, last);
            lemma_initial_trans(n2, n3, last);
            lemma_initial_trans(n1, n2, last);
            lemma_initial_trans(n0, n1, last);
            lemma_grow_one(procedure@, n0, last, prog@.procedure);
            lemma_grow_one(entry@, n1, last, prog@.entry);
            lemma_grow_three(alloc@, n2, last, prog@.alloc);
            lemma_grow_two(alloc_type@, n3, last, prog@.alloc_type);
            lemma_grow_three(const_assign@, n4, last, prog@.const_assign);
            lemma_grow_three(mov@, n5, last, prog@.mov);
            lemma_grow_four(load_field@, n6, last, prog@.load_field);
            lemma_grow_four(store_field@, n7, last, prog@.store_field);
            lemma_grow_four(load_index_const@, n8, last, prog@.load_index_const);
            lemma_grow_four(store_index_const@, n9, last, prog@.store_index_const);
            lemma_grow_four(load_index_var@, n10, last, prog@.load_index_var);
            lemma_grow_four(store_index_var@, n11, last, prog@.store_index_var);
            lemma_grow_two(direct_call@, n12, last, prog@.direct_call);
            lemma_grow_three(virtual_call@, n13, last, prog@.virtual_call);
            lemma_grow_indexed(actual_arg@, n14, last, prog@.actual_arg);
            lemma_grow_two(bind_ret@, n15, last, prog@.bind_ret);
            lemma_grow_indexed(formal@, n16, last, prog@.formal);
            lemma_grow_two(ret@, n17, last, prog@.ret);
            lemma_grow_three(lookup@, n18, last, prog@.lookup);
            lemma_initial_trans(old(names)@, n0, last);
            assert(homes_of(prog.in_proc@) =~= homes(prog@)) by {
                assert forall|x: (Name, Name)| #[trigger]
                    homes(prog@).contains(x) implies homes_of(prog.in_proc@).contains(x) by {
                    let n = choose|n: usize| prog@.in_proc.contains((x.0, x.1, n));
                    assert(prog@.in_proc.contains((x.0, x.1, n)));
                }
                assert forall|x: (Name, Name)| #[trigger]
                    homes_of(prog.in_proc@).contains(x) implies homes(prog@).contains(x) by {
                    let i = choose|i: int|
                        0 <= i < prog.in_proc@.len() && (
                            placed_view(#[trigger] prog.in_proc@[i]).0,
                            placed_view(prog.in_proc@[i]).1,
                        ) == x;
                    assert(prog@.in_proc.contains((x.0, x.1, prog.in_proc@[i].2)));
                }
            }
        }
        Facts {
            procedure,
            entry,
            alloc,
            alloc_type,
            const_assign,
            mov,
            load_field,
            store_field,
            load_index_const,
            store_index_const,
            load_index_var,
            store_index_var,
            direct_call,
            virtual_call,
            actual_arg,
            bind_ret,
            formal,
            ret,
            lookup,
            homes: homes_table,
        }
    }
}

} // verus!
