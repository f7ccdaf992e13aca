//! What a program's facts settle by themselves, over numbers: call targets,
//! callsites, critical statements, and which procedures are known and called.
use vstd::prelude::*;

use crate::codes::Names;
use crate::facts::{
    four_ok, four_row, homes, lemma_find_four, lemma_find_one, lemma_find_three, lemma_find_two,
        lemma_has_one, lemma_means_one, lemma_means_three, lemma_means_two, means_one, means_three,
        means_two, one_ok, one_row, three_ok, three_row, two_ok, two_row,
    Facts,
};
use crate::ir::{Edb, Name};
use crate::table::Table;

verus! {

pub open spec fn target_set(e: Edb) -> Set<(Name, Name)> {
    Set::new(|x: (Name, Name)| e.sig_target(x.0, x.1))
}

pub open spec fn mono_set(e: Edb) -> Set<(Name, Name)> {
    Set::new(|x: (Name, Name)| e.mono_target(x.0, x.1))
}

pub open spec fn decisive_set(e: Edb) -> Set<(Name, Name)> {
    Set::new(|x: (Name, Name)| e.decisive_var(x.0, x.1))
}

/// Signatures that some statement dispatches.
pub open spec fn dispatched_set(e: Edb) -> Set<Name> {
    Set::new(|g: Name| exists|s: Name, r: Name| e.virtual_call.contains((s, r, g)))
}

pub open spec fn uncalled_set(e: Edb) -> Set<Name> {
    Set::new(|p: Name| e.uncalled(p))
}

pub open spec fn eff_set(e: Edb) -> Set<(Name, Name)> {
    Set::new(|x: (Name, Name)| e.eff_direct(x.0, x.1))
}

/// Callee, callsite, caller.
pub open spec fn site_set(e: Edb) -> Set<(Name, Name, Name)> {
    Set::new(|x: (Name, Name, Name)| e.eff_direct(x.1, x.0) && e.stands_in(x.1, x.2))
}

pub open spec fn critical_set(e: Edb) -> Set<Name> {
    Set::new(|s: Name| e.critical(s))
}

pub open spec fn called_set(e: Edb) -> Set<Name> {
    Set::new(|p: Name| e.is_called(p))
}

pub open spec fn known_set(e: Edb) -> Set<Name> {
    Set::new(|p: Name| e.known_proc(p))
}

/// The settled relations.
pub struct Derived {
    /// A signature and one of its targets.
    pub targets: Table,
    /// A callsite and its statically known callee.
    pub eff: Table,
    /// A callee, a callsite of it and the caller.
    pub sites: Table,
    pub critical: Table,
    pub called: Table,
    pub known: Table,
    pub uncalled: Table,
    /// A virtual call with one target, and the target.
    pub mono: Table,
    /// A statement and its deciding operand.
    pub decisive: Table,
    /// A signature that some statement dispatches.
    pub dispatched: Table,
}

impl Derived {
    pub open spec fn ok(&self, names: Seq<Name>, e: Edb) -> bool {
        &&& self.targets.wf() && means_two(self.targets@, names, target_set(e))
        &&& self.eff.wf() && means_two(self.eff@, names, eff_set(e))
        &&& self.sites.wf() && means_three(self.sites@, names, site_set(e))
        &&& self.critical.wf() && means_one(self.critical@, names, critical_set(e))
        &&& self.called.wf() && means_one(self.called@, names, called_set(e))
        &&& self.known.wf() && means_one(self.known@, names, known_set(e))
        &&& self.uncalled.wf() && means_one(self.uncalled@, names, uncalled_set(e))
        &&& self.mono.wf() && means_two(self.mono@, names, mono_set(e))
        &&& self.decisive.wf() && means_two(self.decisive@, names, decisive_set(e))
        &&& self.dispatched.wf() && means_one(self.dispatched@, names, dispatched_set(e))
    }
}

/// Add one column of `src` to `t`.
pub fn add_column(t: &mut Table, src: &Table, a: usize)
    requires
        old(t).wf(),
        forall|i: int| 0 <= i < src@.len() ==> a < (#[trigger] src@[i]).len(),
    ensures
        final(t).wf(),
        forall|row: Seq<usize>| #[trigger]
            final(t)@.contains(row) <==> old(t)@.contains(row) || exists|j: int|
                0 <= j < src@.len() && row == seq![(#[trigger] src@[j])[a as int]],
{
    let mut i: usize = 0;
    while i < src.len()
        invariant
            i <= src@.len(),
            t.wf(),
            forall|j: int| 0 <= j < src@.len() ==> a < (#[trigger] src@[j]).len(),
            forall|row: Seq<usize>| #[trigger]
                t@.contains(row) <==> old(t)@.contains(row) || exists|j: int|
                    0 <= j < i && row == seq![(#[trigger] src@[j])[a as int]],
        decreases src@.len() - i,
    {
        let cells: Vec<usize> = vec![src.at(i, a)];
        let ghost t0 = t@;
        let ghost row0 = cells@;
        t.insert(cells);
        proof {
            assert(row0 =~= seq![src@[i as int][a as int]]);
            assert forall|row: Seq<usize>| #[trigger] t@.contains(row) <==> old(t)@.contains(row)
                || exists|j: int| 0 <= j < i + 1 && row == seq![(#[trigger] src@[j])[a as int]] by {
                if t@.contains(row) && !old(t)@.contains(row) {
                    if t0.contains(row) {
                        let j = choose|j: int|
                            0 <= j < i && row == seq![(#[trigger] src@[j])[a as int]];
                        assert(row == seq![src@[j][a as int]]);
                    } else {
                        assert(row == seq![src@[i as int][a as int]]);
                    }
                }
            }
        }
        i += 1;
    }
}

fn compute_targets(facts: &Facts, Ghost(names): Ghost<Seq<Name>>, Ghost(e): Ghost<Edb>)
    -> (t: Table)
    requires
        facts.ok(names, e),
    ensures
        t.wf(),
        means_two(t@, names, target_set(e)),
{
    let mut t = Table::new();
    let src = &facts.lookup;
    let mut i: usize = 0;
    while i < src.len()
        invariant
            i <= src@.len(),
            t.wf(),
            means_three(src@, names, e.lookup),
            forall|row: Seq<usize>| #[trigger]
                t@.contains(row) ==> two_ok(names, row) && target_set(e).contains(
                    two_row(names, row),
                ),
            forall|j: int| 0 <= j < i ==> t@.contains(seq![(#[trigger] src@[j])[1], src@[j][2]]),
        decreases src@.len() - i,
    {
        proof {
            assert(three_ok(names, src@[i as int]));
        }
        let cells: Vec<usize> = vec![src.at(i, 1), src.at(i, 2)];
        proof {
            assert(cells@ =~= seq![src@[i as int][1], src@[i as int][2]]);
            let x = three_row(names, src@[i as int]);
            assert(e.lookup.contains((x.0, x.1, x.2)));
            assert(e.sig_target(x.1, x.2));
        }
        t.insert(cells);
        i += 1;
    }
    proof {
        assert forall|x: (Name, Name)| #[trigger] target_set(e).contains(x) implies exists|
            row: Seq<usize>,
        | #[trigger]
            t@.contains(row) && two_row(names, row) == x by {
            let ty = choose|ty: Name| e.lookup.contains((ty, x.0, x.1));
            let j = lemma_find_three(src@, names, e.lookup, (ty, x.0, x.1));
            assert(t@.contains(seq![src@[j][1], src@[j][2]]));
        }
        lemma_means_two(t@, names, target_set(e));
    }
    t
}

/// How many targets a signature has.
pub fn count_targets(
    targets: &Table,
    g: usize,
    Ghost(names): Ghost<Seq<Name>>,
    Ghost(e): Ghost<Edb>,
) -> (r: usize)
    requires
        targets.wf(),
        means_two(targets@, names, target_set(e)),
        names.no_duplicates(),
        g < names.len(),
    ensures
        r == e.targets(names[g as int]).len(),
{
    let list = targets.heads(g);
    proof {
        targets.lemma_distinct();
        let t = targets@;
        let seen = Seq::new(list@.len(), |j: int| names[t[list@[j] as int][1] as int]);
        assert forall|j: int| 0 <= j < list@.len()
            implies two_ok(names, t[#[trigger] list@[j] as int])
            by {
            assert(list@[j] < t.len());
            assert(two_ok(names, t[list@[j] as int]));
        }
        assert forall|i: int, j: int| 0 <= i < seen.len() && 0 <= j < seen.len() && i != j
            implies seen[i]
            != seen[j] by {
            assert(two_ok(names, t[list@[i] as int]));
            assert(two_ok(names, t[list@[j] as int]));
            if seen[i] == seen[j] {
                assert(t[list@[i] as int] =~= t[list@[j] as int]);
            }
        }
        seen.unique_seq_to_set();
        let set = e.targets(names[g as int]);
        assert forall|p: Name| #[trigger] set.contains(p) implies seen.to_set().contains(p) by {
            assert(target_set(e).contains((names[g as int], p)));
            let i = choose|i: int|
                0 <= i < t.len() && two_row(names, #[trigger] t[i]) == (names[g as int], p);
            assert(two_ok(names, t[i]));
            assert(t[i][0] == g);
            assert(list@.contains(i as usize));
            let j = choose|j: int| 0 <= j < list@.len() && list@[j] == i as usize;
            assert(seen[j] == p);
        }
        assert forall|p: Name| #[trigger] seen.to_set().contains(p) implies set.contains(p) by {
            let j = choose|j: int| 0 <= j < seen.len() && seen[j] == p;
            assert(two_ok(names, t[list@[j] as int]));
            assert(target_set(e).contains(two_row(names, t[list@[j] as int])));
        }
        assert(seen.to_set() =~= set);
    }
    list.len()
}

/// Virtual calls with a single target, and that target.
fn compute_mono(
    facts: &Facts,
    targets: &Table,
    Ghost(names): Ghost<Seq<Name>>,
    Ghost(e): Ghost<Edb>,
) -> (t: Table)
    requires
        facts.ok(names, e),
        targets.wf(),
        means_two(targets@, names, target_set(e)),
        names.no_duplicates(),
    ensures
        t.wf(),
        means_two(t@, names, mono_set(e)),
{
    let mut t = Table::new();
    let calls = &facts.virtual_call;
    let mut i: usize = 0;
    while i < calls.len()
        invariant
            i <= calls@.len(),
            t.wf(),
            means_three(calls@, names, e.virtual_call),
            targets.wf(),
            means_two(targets@, names, target_set(e)),
            names.no_duplicates(),
            forall|row: Seq<usize>| #[trigger]
                t@.contains(row) ==> two_ok(names, row)
                    && mono_set(e).contains(two_row(names, row)),
            forall|j: int, x: int|
                #![trigger calls@[j], targets@[x]]
                0 <= j < i && 0 <= x < targets@.len() && targets@[x][0] == calls@[j][2]
                    && e.targets(names[calls@[j][2] as int]).len() == 1 ==> t@.contains(
                    seq![calls@[j][0], targets@[x][1]],
                ),
        decreases calls@.len() - i,
    {
        proof {
            assert(three_ok(names, calls@[i as int]));
        }
        let s: usize = calls.at(i, 0);
        let g: usize = calls.at(i, 2);
        let n: usize = count_targets(targets, g, Ghost(names), Ghost(e));
        if n == 1 {
            let list = targets.heads(g);
            let mut y: usize = 0;
            while y < list.len()
                invariant
                    i < calls@.len(),
                    three_ok(names, calls@[i as int]),
                    s == calls@[i as int][0],
                    g == calls@[i as int][2],
                    e.targets(names[g as int]).len() == 1,
                    y <= list@.len(),
                    t.wf(),
                    means_three(calls@, names, e.virtual_call),
                    means_two(targets@, names, target_set(e)),
                    forall|z: int|
                        0 <= z < list@.len() ==> (#[trigger] list@[z]) < targets@.len()
                            && targets@[list@[z] as int][0] == g,
                    forall|row: Seq<usize>| #[trigger]
                        t@.contains(row) ==> two_ok(names, row) && mono_set(e).contains(
                            two_row(names, row),
                        ),
                    forall|j: int, x: int|
                        #![trigger calls@[j], targets@[x]]
                        0 <= j < i && 0 <= x < targets@.len() && targets@[x][0] == calls@[j][2]
                            && e.targets(names[calls@[j][2] as int]).len() == 1 ==> t@.contains(
                            seq![calls@[j][0], targets@[x][1]],
                        ),
                    forall|z: int|
                        0 <= z < y ==> t@.contains(seq![s,
                            targets@[#[trigger] list@[z] as int][1]]),
                decreases list@.len() - y,
            {
                let x: usize = list[y];
                proof {
                    assert(two_ok(names, targets@[x as int]));
                    let row = calls@[i as int];
                    assert(e.virtual_call.contains(three_row(names, row)));
                    assert(e.virtual_call.contains(
                        (names[s as int], names[row[1] as int], names[g as int]),
                    ));
                    assert(target_set(e).contains(two_row(names, targets@[x as int])));
                    assert(e.mono_target(names[s as int], names[targets@[x as int][1] as int]));
                }
                let cells: Vec<usize> = vec![s, targets.at(x, 1)];
                proof {
                    assert(cells@ =~= seq![s, targets@[x as int][1]]);
                }
                t.insert(cells);
                y += 1;
            }
            proof {
                assert forall|x: int|
                    0 <= x < targets@.len() && (#[trigger] targets@[x])[0] == g implies t@.contains(
                    seq![s, targets@[x][1]],
                ) by {
                    targets.lemma_distinct();
                    assert(two_ok(names, targets@[x]));
                    assert(list@.contains(x as usize));
                    let z = choose|z: int| 0 <= z < list@.len() && list@[z] == x as usize;
                    assert(t@.contains(seq![s, targets@[list@[z] as int][1]]));
                }
            }
        }
        i += 1;
    }
    proof {
        assert forall|x: (Name, Name)| #[trigger] mono_set(e).contains(x) implies exists|
            row: Seq<usize>,
        | #[trigger]
            t@.contains(row) && two_row(names, row) == x by {
            let (r, g) = choose|r: Name, g: Name| #[trigger]
                e.virtual_call.contains((x.0, r, g)) && e.targets(g).len() == 1 && e.sig_target(
                    g,
                    x.1,
                );
            let j = lemma_find_three(calls@, names, e.virtual_call, (x.0, r, g));
            assert(target_set(e).contains((g, x.1)));
            let y = lemma_find_two(targets@, names, target_set(e), (g, x.1));
            assert(targets@[y][0] == calls@[j][2]);
            assert(t@.contains(seq![calls@[j][0], targets@[y][1]]));
        }
        lemma_means_two(t@, names, mono_set(e));
    }
    t
}

/// Add two columns of `src` to `t`.
fn add_columns(t: &mut Table, src: &Table, a: usize, b: usize)
    requires
        old(t).wf(),
        forall|i: int|
            0 <= i < src@.len() ==> a < (#[trigger] src@[i]).len() && b < src@[i].len(),
    ensures
        final(t).wf(),
        forall|row: Seq<usize>| #[trigger]
            final(t)@.contains(row) <==> old(t)@.contains(row) || exists|j: int|
                0 <= j < src@.len() && row == seq![(#[trigger] src@[j])[a as int],
                    src@[j][b as int]],
{
    let mut i: usize = 0;
    while i < src.len()
        invariant
            i <= src@.len(),
            t.wf(),
            forall|j: int|
                0 <= j < src@.len() ==> a < (#[trigger] src@[j]).len() && b < src@[j].len(),
            forall|row: Seq<usize>| #[trigger]
                t@.contains(row) <==> old(t)@.contains(row) || exists|j: int|
                    0 <= j < i && row == seq![(#[trigger] src@[j])[a as int], src@[j][b as int]],
        decreases src@.len() - i,
    {
        let cells: Vec<usize> = vec![src.at(i, a), src.at(i, b)];
        let ghost t0 = t@;
        let ghost row0 = cells@;
        t.insert(cells);
        proof {
            assert(row0 =~= seq![src@[i as int][a as int], src@[i as int][b as int]]);
            assert forall|row: Seq<usize>| #[trigger] t@.contains(row) <==> old(t)@.contains(row)
                || exists|j: int|
                0 <= j < i + 1 && row == seq![(#[trigger] src@[j])[a as int],
                    src@[j][b as int]] by {
                if t@.contains(row) && !old(t)@.contains(row) {
                    if t0.contains(row) {
                        let j = choose|j: int|
                            0 <= j < i && row == seq![
                                (#[trigger] src@[j])[a as int],
                                src@[j][b as int],
                            ];
                        assert(row == seq![src@[j][a as int], src@[j][b as int]]);
                    } else {
                        assert(row == seq![src@[i as int][a as int], src@[i as int][b as int]]);
                    }
                }
            }
        }
        i += 1;
    }
}

/// Callsites with a statically known callee.
fn compute_eff(
    facts: &Facts,
    mono: &Table,
    Ghost(names): Ghost<Seq<Name>>,
    Ghost(e): Ghost<Edb>,
) -> (t: Table)
    requires
        facts.ok(names, e),
        mono.wf(),
        means_two(mono@, names, mono_set(e)),
    ensures
        t.wf(),
        means_two(t@, names, eff_set(e)),
{
    let mut t = Table::new();
    let direct = &facts.direct_call;
    proof {
        assert forall|i: int| 0 <= i < direct@.len() implies 0 < (#[trigger] direct@[i]).len() && 1
            < direct@[i].len() by {
            assert(two_ok(names, direct@[i]));
        }
        assert forall|i: int| 0 <= i < mono@.len() implies 0 < (#[trigger] mono@[i]).len() && 1
            < mono@[i].len() by {
            assert(two_ok(names, mono@[i]));
        }
    }
    add_columns(&mut t, direct, 0, 1);
    let ghost t1 = t@;
    add_columns(&mut t, mono, 0, 1);
    proof {
        assert forall|row: Seq<usize>| #[trigger] t@.contains(row) implies two_ok(names, row)
            && eff_set(e).contains(two_row(names, row)) by {
            if t1.contains(row) {
                let j = choose|j: int|
                    0 <= j < direct@.len() && row == seq![(#[trigger] direct@[j])[0],
                        direct@[j][1]];
                assert(two_ok(names, direct@[j]));
                assert(e.direct_call.contains(two_row(names, direct@[j])));
            } else {
                let j = choose|j: int|
                    0 <= j < mono@.len() && row == seq![(#[trigger] mono@[j])[0], mono@[j][1]];
                assert(two_ok(names, mono@[j]));
                assert(mono_set(e).contains(two_row(names, mono@[j])));
            }
        }
        assert forall|x: (Name, Name)| #[trigger] eff_set(e).contains(x) implies exists|
            row: Seq<usize>,
        | #[trigger]
            t@.contains(row) && two_row(names, row) == x by {
            if e.direct_call.contains(x) {
                let j = lemma_find_two(direct@, names, e.direct_call, x);
                assert(t1.contains(seq![direct@[j][0], direct@[j][1]]));
                assert(t@.contains(seq![direct@[j][0], direct@[j][1]]));
            } else {
                assert(mono_set(e).contains(x));
                let j = lemma_find_two(mono@, names, mono_set(e), x);
                assert(t@.contains(seq![mono@[j][0], mono@[j][1]]));
            }
        }
        lemma_means_two(t@, names, eff_set(e));
    }
    t
}

/// The deciding operands of statements, as they spell them.
fn compute_decisive(facts: &Facts, Ghost(names): Ghost<Seq<Name>>, Ghost(e): Ghost<Edb>)
    -> (t: Table)
    requires
        facts.ok(names, e),
    ensures
        t.wf(),
        means_two(t@, names, decisive_set(e)),
{
    let mut t = Table::new();
    let calls = &facts.virtual_call;
    let loads = &facts.load_index_var;
    let stores = &facts.store_index_var;
    proof {
        assert forall|i: int| 0 <= i < calls@.len() implies 0 < (#[trigger] calls@[i]).len() && 1
            < calls@[i].len() by {
            assert(three_ok(names, calls@[i]));
        }
        assert forall|i: int| 0 <= i < loads@.len() implies 0 < (#[trigger] loads@[i]).len() && 3
            < loads@[i].len() by {
            assert(four_ok(names, loads@[i]));
        }
        assert forall|i: int| 0 <= i < stores@.len() implies 0 < (#[trigger] stores@[i]).len() && 2
            < stores@[i].len() by {
            assert(four_ok(names, stores@[i]));
        }
    }
    add_columns(&mut t, calls, 0, 1);
    let ghost t1 = t@;
    add_columns(&mut t, loads, 0, 3);
    let ghost t2 = t@;
    add_columns(&mut t, stores, 0, 2);
    proof {
        let set = decisive_set(e);
        assert forall|row: Seq<usize>| #[trigger] t@.contains(row) implies two_ok(names, row)
            && set.contains(two_row(names, row)) by {
            if t1.contains(row) {
                let j = choose|j: int|
                    0 <= j < calls@.len() && row == seq![(#[trigger] calls@[j])[0], calls@[j][1]];
                assert(three_ok(names, calls@[j]));
                let x = three_row(names, calls@[j]);
                assert(e.virtual_call.contains((x.0, x.1, x.2)));
            } else if t2.contains(row) {
                let j = choose|j: int|
                    0 <= j < loads@.len() && row == seq![(#[trigger] loads@[j])[0], loads@[j][3]];
                assert(four_ok(names, loads@[j]));
                let x = four_row(names, loads@[j]);
                assert(e.load_index_var.contains((x.0, x.1, x.2, x.3)));
            } else {
                let j = choose|j: int|
                    0 <= j < stores@.len() && row == seq![(#[trigger] stores@[j])[0],
                        stores@[j][2]];
                assert(four_ok(names, stores@[j]));
                let x = four_row(names, stores@[j]);
                assert(e.store_index_var.contains((x.0, x.1, x.2, x.3)));
            }
        }
        assert forall|x: (Name, Name)| #[trigger] set.contains(x) implies exists|row: Seq<usize>|
            #[trigger] t@.contains(row) && two_row(names, row) == x by {
            if exists|g: Name| e.virtual_call.contains((x.0, x.1, g)) {
                let g = choose|g: Name| e.virtual_call.contains((x.0, x.1, g));
                let j = lemma_find_three(calls@, names, e.virtual_call, (x.0, x.1, g));
                assert(t1.contains(seq![calls@[j][0], calls@[j][1]]));
                assert(t2.contains(seq![calls@[j][0], calls@[j][1]]));
                assert(t@.contains(seq![calls@[j][0], calls@[j][1]]));
            } else if exists|a: Name, b: Name| e.load_index_var.contains((x.0, a, b, x.1)) {
                let (a, b) = choose|a: Name, b: Name| e.load_index_var.contains((x.0, a, b, x.1));
                let j = lemma_find_four(loads@, names, e.load_index_var, (x.0, a, b, x.1));
                assert(t2.contains(seq![loads@[j][0], loads@[j][3]]));
                assert(t@.contains(seq![loads@[j][0], loads@[j][3]]));
            } else {
                let (a, b) = choose|a: Name, b: Name| e.store_index_var.contains((x.0, a, x.1, b));
                let j = lemma_find_four(stores@, names, e.store_index_var, (x.0, a, x.1, b));
                assert(t@.contains(seq![stores@[j][0], stores@[j][2]]));
            }
        }
        lemma_means_two(t@, names, set);
    }
    t
}

/// Signatures that some statement dispatches.
fn compute_dispatched(facts: &Facts, Ghost(names): Ghost<Seq<Name>>, Ghost(e): Ghost<Edb>)
    -> (t: Table)
    requires
        facts.ok(names, e),
    ensures
        t.wf(),
        means_one(t@, names, dispatched_set(e)),
{
    let mut t = Table::new();
    let calls = &facts.virtual_call;
    proof {
        assert forall|i: int| 0 <= i < calls@.len() implies 2 < (#[trigger] calls@[i]).len() by {
            assert(three_ok(names, calls@[i]));
        }
    }
    add_column(&mut t, calls, 2);
    proof {
        let set = dispatched_set(e);
        assert forall|row: Seq<usize>| #[trigger] t@.contains(row) implies one_ok(names, row)
            && set.contains(one_row(names, row)) by {
            let j = choose|j: int| 0 <= j < calls@.len() && row == seq![(#[trigger] calls@[j])[2]];
            assert(three_ok(names, calls@[j]));
            let x = three_row(names, calls@[j]);
            assert(e.virtual_call.contains((x.0, x.1, x.2)));
        }
        assert forall|g: Name| #[trigger] set.contains(g) implies exists|row: Seq<usize>|
            #[trigger] t@.contains(row) && one_row(names, row) == g by {
            let (s, r) = choose|s: Name, r: Name| e.virtual_call.contains((s, r, g));
            let j = lemma_find_three(calls@, names, e.virtual_call, (s, r, g));
            assert(t@.contains(seq![calls@[j][2]]));
        }
        lemma_means_one(t@, names, set);
    }
    t
}

/// Procedures that nothing calls.
fn compute_uncalled(
    known: &Table,
    called: &Table,
    Ghost(names): Ghost<Seq<Name>>,
    Ghost(e): Ghost<Edb>,
) -> (t: Table)
    requires
        known.wf(),
        called.wf(),
        means_one(known@, names, known_set(e)),
        means_one(called@, names, called_set(e)),
        names.no_duplicates(),
    ensures
        t.wf(),
        means_one(t@, names, uncalled_set(e)),
{
    let mut t = Table::new();
    let mut i: usize = 0;
    while i < known.len()
        invariant
            i <= known@.len(),
            t.wf(),
            called.wf(),
            means_one(known@, names, known_set(e)),
            means_one(called@, names, called_set(e)),
            names.no_duplicates(),
            forall|row: Seq<usize>| #[trigger]
                t@.contains(row) ==> one_ok(names, row) && uncalled_set(e).contains(
                    one_row(names, row),
                ),
            forall|j: int|
                0 <= j < i && !e.is_called(one_row(names, #[trigger] known@[j])) ==> t@.contains(
                    seq![known@[j][0]],
                ),
        decreases known@.len() - i,
    {
        proof {
            assert(one_ok(names, known@[i as int]));
        }
        let cells: Vec<usize> = vec![known.at(i, 0)];
        proof {
            assert(cells@ =~= seq![known@[i as int][0]]);
            assert(known_set(e).contains(one_row(names, known@[i as int])));
            lemma_has_one(called@, names, called_set(e), cells@);
        }
        if !called.has(cells.as_slice()) {
            t.insert(cells);
        }
        i += 1;
    }
    proof {
        assert forall|p: Name| #[trigger] uncalled_set(e).contains(p)
            implies exists|row: Seq<usize>|
            #[trigger] t@.contains(row) && one_row(names, row) == p by {
            assert(known_set(e).contains(p));
            let j = lemma_find_one(known@, names, known_set(e), p);
            assert(t@.contains(seq![known@[j][0]]));
        }
        lemma_means_one(t@, names, uncalled_set(e));
    }
    t
}

fn compute_critical(
    facts: &Facts,
    targets: &Table,
    Ghost(names): Ghost<Seq<Name>>,
    Ghost(e): Ghost<Edb>,
) -> (t: Table)
    requires
        facts.ok(names, e),
        targets.wf(),
        means_two(targets@, names, target_set(e)),
        names.no_duplicates(),
    ensures
        t.wf(),
        means_one(t@, names, critical_set(e)),
{
    let mut t = Table::new();
    let calls = &facts.virtual_call;
    let mut i: usize = 0;
    while i < calls.len()
        invariant
            i <= calls@.len(),
            t.wf(),
            means_three(calls@, names, e.virtual_call),
            targets.wf(),
            means_two(targets@, names, target_set(e)),
            names.no_duplicates(),
            forall|row: Seq<usize>| #[trigger]
                t@.contains(row) ==> one_ok(names, row) && e.critical(one_row(names, row)),
            forall|j: int|
                0 <= j < i && e.targets(names[(#[trigger] calls@[j])[2] as int]).len() > 1
                    ==> t@.contains(seq![calls@[j][0]]),
        decreases calls@.len() - i,
    {
        proof {
            assert(three_ok(names, calls@[i as int]));
        }
        let g: usize = calls.at(i, 2);
        let n: usize = count_targets(targets, g, Ghost(names), Ghost(e));
        if n > 1 {
            let cells: Vec<usize> = vec![calls.at(i, 0)];
            proof {
                let row = calls@[i as int];
                assert(cells@ =~= seq![row[0]]);
                assert(e.virtual_call.contains(three_row(names, row)));
                assert(e.critical(names[row[0] as int]));
            }
            t.insert(cells);
        }
        i += 1;
    }
    let ghost t1 = t@;
    proof {
        facts.load_index_var.lemma_distinct();
        assert forall|j: int| 0 <= j < facts.load_index_var@.len() implies 0 < (
        #[trigger] facts.load_index_var@[j]).len() by {
            assert(four_ok(names, facts.load_index_var@[j]));
        }
        assert forall|j: int| 0 <= j < facts.store_index_var@.len() implies 0 < (
        #[trigger] facts.store_index_var@[j]).len() by {
            assert(four_ok(names, facts.store_index_var@[j]));
        }
    }
    add_column(&mut t, &facts.load_index_var, 0);
    let ghost t2 = t@;
    add_column(&mut t, &facts.store_index_var, 0);
    proof {
        let loads = facts.load_index_var@;
        let stores = facts.store_index_var@;
        assert forall|row: Seq<usize>| #[trigger] t@.contains(row) implies one_ok(names, row)
            && critical_set(e).contains(one_row(names, row)) by {
            if !t2.contains(row) {
                let j = choose|j: int|
                    0 <= j < stores.len() && row == seq![(#[trigger] stores[j])[0]];
                assert(four_ok(names, stores[j]));
                assert(e.store_index_var.contains(four_row(names, stores[j])));
                assert(e.store_stmt(names[row[0] as int]));
            } else if !t1.contains(row) {
                let j = choose|j: int| 0 <= j < loads.len()
                    && row == seq![(#[trigger] loads[j])[0]];
                assert(four_ok(names, loads[j]));
                assert(e.load_index_var.contains(four_row(names, loads[j])));
                assert(e.load_stmt(names[row[0] as int]));
            }
        }
        assert forall|s: Name| #[trigger] critical_set(e).contains(s) implies exists|
            row: Seq<usize>,
        | #[trigger]
            t@.contains(row) && one_row(names, row) == s by {
            if e.load_stmt(s) {
                let (to, base, ix) = choose|to: Name, base: Name, ix: Name|
                    e.load_index_var.contains((s, to, base, ix));
                let j = lemma_find_four(loads, names, e.load_index_var, (s, to, base, ix));
                assert(seq![loads[j][0]] == seq![loads[j][0]]);
                assert(t2.contains(seq![loads[j][0]]));
                assert(t@.contains(seq![loads[j][0]]));
            } else if e.store_stmt(s) {
                let (base, ix, from) = choose|base: Name, ix: Name, from: Name|
                    e.store_index_var.contains((s, base, ix, from));
                let j = lemma_find_four(stores, names, e.store_index_var, (s, base, ix, from));
                assert(t@.contains(seq![stores[j][0]]));
            } else {
                let (r, g) = choose|r: Name, g: Name| #[trigger]
                    e.virtual_call.contains((s, r, g)) && e.targets(g).len() > 1;
                let j = lemma_find_three(calls@, names, e.virtual_call, (s, r, g));
                assert(t1.contains(seq![calls@[j][0]]));
                assert(t2.contains(seq![calls@[j][0]]));
                assert(t@.contains(seq![calls@[j][0]]));
            }
        }
        lemma_means_one(t@, names, critical_set(e));
    }
    t
}

fn compute_sites(
    facts: &Facts,
    eff: &Table,
    Ghost(names): Ghost<Seq<Name>>,
    Ghost(e): Ghost<Edb>,
) -> (t: Table)
    requires
        facts.ok(names, e),
        eff.wf(),
        means_two(eff@, names, eff_set(e)),
        names.no_duplicates(),
    ensures
        t.wf(),
        means_three(t@, names, site_set(e)),
{
    let mut t = Table::new();
    let places = &facts.homes;
    let mut i: usize = 0;
    while i < eff.len()
        invariant
            i <= eff@.len(),
            t.wf(),
            places.wf(),
            means_two(eff@, names, eff_set(e)),
            means_two(places@, names, homes(e)),
            names.no_duplicates(),
            forall|row: Seq<usize>| #[trigger]
                t@.contains(row) ==> three_ok(names, row) && site_set(e).contains(
                    three_row(names, row),
                ),
            forall|j: int, x: int|
                #![trigger eff@[j], places@[x]]
                0 <= j < i && 0 <= x < places@.len() && places@[x][0] == eff@[j][0] ==> t@.contains(
                    seq![eff@[j][1], eff@[j][0], places@[x][1]],
                ),
        decreases eff@.len() - i,
    {
        proof {
            assert(two_ok(names, eff@[i as int]));
        }
        let s: usize = eff.at(i, 0);
        let c: usize = eff.at(i, 1);
        let list = places.heads(s);
        let mut y: usize = 0;
        while y < list.len()
            invariant
                i < eff@.len(),
                two_ok(names, eff@[i as int]),
                s == eff@[i as int][0],
                c == eff@[i as int][1],
                y <= list@.len(),
                t.wf(),
                means_two(eff@, names, eff_set(e)),
                means_two(places@, names, homes(e)),
                forall|z: int|
                    0 <= z < list@.len() ==> (#[trigger] list@[z]) < places@.len()
                        && places@[list@[z] as int][0] == s,
                forall|row: Seq<usize>| #[trigger]
                    t@.contains(row) ==> three_ok(names, row) && site_set(e).contains(
                        three_row(names, row),
                    ),
                forall|j: int, x: int|
                    #![trigger eff@[j], places@[x]]
                    0 <= j < i && 0 <= x < places@.len() && places@[x][0] == eff@[j][0]
                        ==> t@.contains(seq![eff@[j][1], eff@[j][0], places@[x][1]]),
                forall|z: int|
                    0 <= z < y ==> t@.contains(
                        seq![c, s, places@[#[trigger] list@[z] as int][1]],
                    ),
            decreases list@.len() - y,
        {
            let x: usize = list[y];
            proof {
                assert(two_ok(names, places@[x as int]));
                assert(eff_set(e).contains(two_row(names, eff@[i as int])));
                assert(homes(e).contains(two_row(names, places@[x as int])));
            }
            let cells: Vec<usize> = vec![c, s, places.at(x, 1)];
            proof {
                assert(cells@ =~= seq![c, s, places@[x as int][1]]);
            }
            t.insert(cells);
            y += 1;
        }
        proof {
            assert forall|x: int| 0 <= x < places@.len() && (#[trigger] places@[x])[0] == s
                implies t@.contains(
                seq![c, s, places@[x][1]],
            ) by {
                places.lemma_distinct();
                assert(two_ok(names, places@[x]));
                assert(list@.contains(x as usize));
                let z = choose|z: int| 0 <= z < list@.len() && list@[z] == x as usize;
                assert(t@.contains(seq![c, s, places@[list@[z] as int][1]]));
            }
        }
        i += 1;
    }
    proof {
        assert forall|x: (Name, Name, Name)| #[trigger] site_set(e).contains(x) implies exists|
            row: Seq<usize>,
        | #[trigger]
            t@.contains(row) && three_row(names, row) == x by {
            assert(eff_set(e).contains((x.1, x.0)));
            assert(homes(e).contains((x.1, x.2)));
            let j = lemma_find_two(eff@, names, eff_set(e), (x.1, x.0));
            let y = lemma_find_two(places@, names, homes(e), (x.1, x.2));
            assert(t@.contains(seq![eff@[j][1], eff@[j][0], places@[y][1]]));
        }
        lemma_means_three(t@, names, site_set(e));
    }
    t
}

impl Derived {
    /// Settle what the facts settle.
    pub fn of_facts(facts: &Facts, names: &Names, Ghost(e): Ghost<Edb>) -> (r: Self)
        requires
            names.wf(),
            facts.ok(names@, e),
        ensures
            r.ok(names@, e),
    {
        let ghost ns = names@;
        proof {
            names.lemma_distinct();
        }
        let targets = compute_targets(facts, Ghost(ns), Ghost(e));
        let mono = compute_mono(facts, &targets, Ghost(ns), Ghost(e));
        let eff = compute_eff(facts, &mono, Ghost(ns), Ghost(e));
        let decisive = compute_decisive(facts, Ghost(ns), Ghost(e));
        let dispatched = compute_dispatched(facts, Ghost(ns), Ghost(e));
        let sites = compute_sites(facts, &eff, Ghost(ns), Ghost(e));
        let critical = compute_critical(facts, &targets, Ghost(ns), Ghost(e));
        let mut called = Table::new();
        proof {
            assert forall|j: int| 0 <= j < sites@.len()
                implies 0 < (#[trigger] sites@[j]).len() by {
                assert(three_ok(ns, sites@[j]));
            }
            assert forall|j: int| 0 <= j < facts.procedure@.len() implies 0 < (
            #[trigger] facts.procedure@[j]).len() by {
                assert(one_ok(ns, facts.procedure@[j]));
            }
            assert forall|j: int| 0 <= j < facts.homes@.len() implies 1 < (
            #[trigger] facts.homes@[j]).len() by {
                assert(two_ok(ns, facts.homes@[j]));
            }
        }
        add_column(&mut called, &sites, 0);
        let mut known = Table::new();
        add_column(&mut known, &facts.procedure, 0);
        let ghost k1 = known@;
        add_column(&mut known, &facts.homes, 1);
        proof {
            let st = sites@;
            assert forall|row: Seq<usize>| #[trigger] called@.contains(row) implies one_ok(ns, row)
                && called_set(e).contains(one_row(ns, row)) by {
                let j = choose|j: int| 0 <= j < st.len() && row == seq![(#[trigger] st[j])[0]];
                assert(three_ok(ns, st[j]));
                let x = three_row(ns, st[j]);
                assert(site_set(e).contains(x));
                assert(e.eff_direct(x.1, x.0) && e.located(x.1));
            }
            assert forall|p: Name| #[trigger] called_set(e).contains(p) implies exists|
                row: Seq<usize>,
            | #[trigger]
                called@.contains(row) && one_row(ns, row) == p by {
                let s = choose|s: Name| #[trigger] e.eff_direct(s, p) && e.located(s);
                let q = choose|q: Name| e.stands_in(s, q);
                assert(site_set(e).contains((p, s, q)));
                let j = lemma_find_three(st, ns, site_set(e), (p, s, q));
                assert(called@.contains(seq![st[j][0]]));
            }
            lemma_means_one(called@, ns, called_set(e));
            let pr = facts.procedure@;
            let ho = facts.homes@;
            assert forall|row: Seq<usize>| #[trigger] known@.contains(row) implies one_ok(ns, row)
                && known_set(e).contains(one_row(ns, row)) by {
                if k1.contains(row) {
                    let j = choose|j: int| 0 <= j < pr.len() && row == seq![(#[trigger] pr[j])[0]];
                    assert(one_ok(ns, pr[j]));
                } else {
                    let j = choose|j: int| 0 <= j < ho.len() && row == seq![(#[trigger] ho[j])[1]];
                    assert(two_ok(ns, ho[j]));
                    let x = two_row(ns, ho[j]);
                    assert(homes(e).contains(x));
                    assert(e.stands_in(x.0, x.1));
                }
            }
            assert forall|p: Name| #[trigger] known_set(e).contains(p) implies exists|
                row: Seq<usize>,
            | #[trigger]
                known@.contains(row) && one_row(ns, row) == p by {
                if e.procedure.contains(p) {
                    let j = lemma_find_one(pr, ns, e.procedure, p);
                    assert(k1.contains(seq![pr[j][0]]));
                    assert(known@.contains(seq![pr[j][0]]));
                } else {
                    let s = choose|s: Name| e.stands_in(s, p);
                    assert(homes(e).contains((s, p)));
                    let j = lemma_find_two(ho, ns, homes(e), (s, p));
                    assert(known@.contains(seq![ho[j][1]]));
                }
            }
            lemma_means_one(known@, ns, known_set(e));
        }
        let uncalled = compute_uncalled(&known, &called, Ghost(ns), Ghost(e));
        Derived {
            targets,
            eff,
            sites,
            critical,
            called,
            known,
            uncalled,
            mono,
            decisive,
            dispatched,
        }
    }
}

} // verus!
