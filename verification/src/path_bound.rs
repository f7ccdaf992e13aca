//! The default access-path bound: which suffixes a program's *syntax* asks for.
//!
//! The relation `paths` of a program is the analysis's whole access-path
//! vocabulary, and the analysis does not care where it comes from. This module
//! is the answer used when a program does not supply one.
//!
//! # The bound
//!
//! Suffix congruence feeds itself, so without a bound one cycle in the
//! constraint graph generates access paths forever. The vocabulary is therefore
//! the set of suffixes the program's own statements spell out, *concatenated
//! along local data flow*. If `t = x.foo` and then `u = t.bar`, the program has
//! named the compound path `x.foo.bar`, and the analysis may build it.
//!
//! Loads, stores and moves each give a link `v --a@n--> w`: whatever suffix the
//! program hangs off `v`, the statement at line `n` also hangs, behind `a`, off
//! `w`.
//!
//! | statement | link |
//! |---|---|
//! | `to = base.f` | `to --.f--> base` |
//! | `base.f = from` | `from --.f--> base` |
//! | `to = base[c]` | `to --[c]--> base` |
//! | `base[c] = from` | `from --[c]--> base` |
//! | `to = base[i]` | `to --a--> base`, `a` over every index the program can decide to |
//! | `base[i] = from` | `from --a--> base`, likewise |
//! | `to = from` | `to ----> from` |
//!
//! A suffix discovered at line `m` attaches at line `n` only if `n < m` and the
//! variable linking them is not redefined anywhere strictly between the two. The
//! first condition bounds every chain by the length of its procedure; the second
//! keeps the set small.
//!
//! Concatenation is local to a procedure. [`Bound::fold`] buys levels of it back
//! by closing the set under concatenation that many factors deep.
use vstd::prelude::*;

use crate::access_path::{Accessor, Step, Suffix};
use crate::chains::{collect, decidable_indices, Walk};
use crate::codes::{flat_ok, flat_steps, lemma_flat_append, step_ok, Names};
use crate::facts::{lemma_grow_four, table_four, Facts};
use crate::ir::{
    placed_view, same_placed, suffix_set, Const, Edb, Field, Line, Name, Proc, Program, Stmt,
        Symbol,
};
use crate::links::{find_links, find_writes, Seats};
use crate::order::{ascending, law_order_is_unique, ordered};
use crate::table::{copy_row, Table};
use crate::tuples::tuples;

verus! {

// ---------------------------------------------------------------------------
// What the syntax spells
// ---------------------------------------------------------------------------

/// Knobs on [`syntactic`].
#[derive(Debug)]
pub struct Bound {
    /// Drop any suffix longer than this. `None` lets the syntax decide.
    pub max_depth: Option<usize>,
    /// How many locally derived suffixes may be concatenated. One is the
    /// syntactic set itself, two also admits every pair, and so on.
    pub fold: usize,
}

impl Clone for Bound {
    fn clone(&self) -> (r: Self)
        ensures
            r == *self,
    {
        Bound { max_depth: self.max_depth, fold: self.fold }
    }
}

impl Default for Bound {
    fn default() -> (r: Self)
        ensures
            r.max_depth == None::<usize>,
            r.fold == 1,
    {
        Bound { max_depth: None, fold: 1 }
    }
}

/// Where statement `s` stands: the last place the list names for it.
pub open spec fn place(v: Seq<(Stmt, Proc, Line)>, s: Name) -> Option<(Name, Line)>
    decreases v.len(),
{
    if v.len() == 0 {
        None
    } else if v.last().0@ == s {
        Some((v.last().1@, v.last().2))
    } else {
        place(v.drop_last(), s)
    }
}

/// The program mentions the constant `c`.
pub open spec fn mentions(e: Edb, c: Name) -> bool {
    ||| exists|s: Name, v: Name| e.const_assign.contains((s, v, c))
    ||| exists|s: Name, to: Name, base: Name| e.load_index_const.contains((s, to, base, c))
    ||| exists|s: Name, base: Name, from: Name| e.store_index_const.contains((s, base, c, from))
}

/// A variable index may be decided to `a`.
pub open spec fn decidable(e: Edb, a: Step) -> bool {
    match a {
        Step::Field(_) => false,
        Step::Index(c) => mentions(e, c),
        Step::Unknown => true,
    }
}

/// Statement `s` accesses `dst` through a variable index, to or from `src`.
pub open spec fn indexes(e: Edb, s: Name, src: Name, dst: Name) -> bool {
    ||| exists|i: Name| e.load_index_var.contains((s, src, dst, i))
    ||| exists|i: Name| e.store_index_var.contains((s, dst, i, src))
}

/// Statement `s` hangs what hangs off `src` off `dst`, behind `acc` if there is one.
pub open spec fn stmt_link(e: Edb, s: Name, src: Name, dst: Name, acc: Option<Step>) -> bool {
    match acc {
        None => e.mov.contains((s, src, dst)),
        Some(a) => {
            ||| a matches Step::Field(f) && (e.load_field.contains((s, src, dst, f))
                || e.store_field.contains((s, dst, f, src)))
            ||| a matches Step::Index(c) && (e.load_index_const.contains((s, src, dst, c))
                || e.store_index_const.contains((s, dst, c, src)))
            ||| decidable(e, a) && indexes(e, s, src, dst)
        },
    }
}

/// Statement `s` overwrites `v`, whether or not it carries a suffix.
pub open spec fn stmt_defines(e: Edb, s: Name, v: Name) -> bool {
    ||| exists|x: Name| e.mov.contains((s, v, x))
    ||| exists|x: Name| e.alloc.contains((s, v, x))
    ||| exists|x: Name| e.const_assign.contains((s, v, x))
    ||| exists|x: Name, y: Name| e.load_field.contains((s, v, x, y))
    ||| exists|x: Name, y: Name| e.load_static.contains((s, v, x, y))
    ||| exists|x: Name, y: Name| e.load_index_const.contains((s, v, x, y))
    ||| exists|x: Name, y: Name| e.load_index_var.contains((s, v, x, y))
    ||| e.bind_ret.contains((s, v))
}

/// The link of line `l` in `p`.
pub open spec fn link(
    prog: Program,
    p: Name,
    l: Line,
    src: Name,
    dst: Name,
    acc: Option<Step>,
) -> bool {
    exists|s: Name| #[trigger]
        place(prog.in_proc@, s) == Some((p, l)) && stmt_link(prog@, s, src, dst, acc)
}

/// Line `l` of `p` overwrites `v`.
pub open spec fn defines(prog: Program, p: Name, l: Line, v: Name) -> bool {
    exists|s: Name| #[trigger]
        place(prog.in_proc@, s) == Some((p, l)) && stmt_defines(prog@, s, v)
}

/// `v` is not redefined strictly between two lines of `p`.
pub open spec fn clear(prog: Program, p: Name, v: Name, l: Line, m: Line) -> bool {
    forall|n: Line| l < n < m ==> !#[trigger] defines(prog, p, n, v)
}

pub open spec fn under(max: Option<usize>, n: nat) -> bool {
    match max {
        Some(d) => n <= d,
        None => true,
    }
}

/// Line `l` of `p` hangs the nonempty suffix `rho` off `v`.
pub open spec fn hangs(
    prog: Program,
    max: Option<usize>,
    p: Name,
    v: Name,
    rho: Seq<Step>,
    l: Line,
) -> bool
    decreases usize::MAX - l, 1int,
{
    rho.len() > 0 && exists|src: Name, acc: Option<Step>| #[trigger]
        link(prog, p, l, src, v, acc) && match acc {
            None => reaches(prog, max, p, src, rho, l),
            Some(a) => {
                &&& rho[0] == a
                &&& under(max, rho.len())
                &&& rho.len() == 1 || reaches(prog, max, p, src, rho.drop_first(), l)
            },
        }
}

/// The nonempty suffix `rho` that a later line hangs off `v` still counts at line `l`.
pub open spec fn reaches(
    prog: Program,
    max: Option<usize>,
    p: Name,
    v: Name,
    rho: Seq<Step>,
    l: Line,
) -> bool
    decreases usize::MAX - l, 0int,
{
    exists|m: Line|
        l < m && hangs(prog, max, p, v, rho, m) && #[trigger] clear(prog, p, v, l, m)
}

/// The suffixes that single procedures spell, and the empty one.
pub open spec fn spelled(prog: Program, max: Option<usize>) -> Set<Seq<Step>> {
    Set::new(
        |rho: Seq<Step>|
            rho.len() == 0 || exists|p: Name, v: Name, l: Line| hangs(prog, max, p, v, rho, l),
    )
}

/// Concatenations of at most `n` factors of `base`, none of them longer than `max`.
pub open spec fn folded(base: Set<Seq<Step>>, max: Option<usize>, n: nat) -> Set<Seq<Step>>
    decreases n,
{
    if n <= 1 {
        base
    } else {
        let shorter = folded(base, max, (n - 1) as nat);
        shorter.union(
            Set::new(
                |s: Seq<Step>|
                    exists|a: Seq<Step>, b: Seq<Step>| #[trigger]
                        shorter.contains(a) && #[trigger] base.contains(b) && a.len() > 0 && b.len()
                            > 0 && s == a + b && under(max, s.len()),
            ),
        )
    }
}

/// The bound that a program's syntax gives.
pub open spec fn vocabulary(prog: Program, bound: Bound) -> Set<Seq<Step>> {
    folded(spelled(prog, bound.max_depth), bound.max_depth, bound.fold as nat)
}

/// The bound to run a program under: its own, and otherwise what its syntax gives.
pub open spec fn chosen(prog: Program) -> Set<Seq<Step>> {
    if prog.paths@.len() == 0 {
        folded(spelled(prog, None), None, 1)
    } else {
        prog@.paths
    }
}

/// The suffixes of a relation, in its order.
pub open spec fn suffixes(paths: Seq<(Suffix,)>) -> Seq<Suffix> {
    Seq::new(paths.len(), |i: int| paths[i].0)
}

/// `paths` lists the suffixes of `set` in order, each once.
pub open spec fn lists(paths: Seq<(Suffix,)>, set: Set<Seq<Step>>) -> bool {
    &&& suffix_set(paths) == set
    &&& ascending(suffixes(paths))
}

/// `r` is `prog` with the bound of its syntax in place of its vocabulary.
pub open spec fn installed(r: Program, prog: Program, bound: Bound) -> bool {
    &&& r == (Program { paths: r.paths, ..prog })
    &&& lists(r.paths@, vocabulary(prog, bound))
}

// ---------------------------------------------------------------------------
// Laws
// ---------------------------------------------------------------------------

proof fn lemma_same_place(a: Seq<(Stmt, Proc, Line)>, b: Seq<(Stmt, Proc, Line)>, s: Name)
    requires
        same_placed(a, b),
    ensures
        place(a, s) == place(b, s),
    decreases a.len(),
{
    if a.len() > 0 {
        let n = a.len() - 1;
        assert(placed_view(a[n]) == placed_view(b[n]));
        assert forall|i: int| 0 <= i < b.drop_last().len() implies placed_view(
            #[trigger] a.drop_last()[i],
        ) == placed_view(b.drop_last()[i]) by {
            assert(placed_view(a[i]) == placed_view(b[i]));
        }
        lemma_same_place(a.drop_last(), b.drop_last(), s);
    }
}

proof fn lemma_same_statement(
    a: Edb,
    b: Edb,
    s: Name,
    src: Name,
    dst: Name,
    acc: Option<Step>,
)
    requires
        a == (Edb { paths: a.paths, ..b }),
    ensures
        stmt_link(a, s, src, dst, acc) ==> stmt_link(b, s, src, dst, acc),
        stmt_defines(a, s, src) ==> stmt_defines(b, s, src),
{
}

/// The statements of programs with the same facts link and define the same.
proof fn lemma_same_links(a: Program, b: Program)
    requires
        a.repeats_facts(&b),
    ensures
        forall|p: Name, l: Line, src: Name, dst: Name, acc: Option<Step>| #[trigger]
            link(a, p, l, src, dst, acc) == link(b, p, l, src, dst, acc),
        forall|p: Name, l: Line, v: Name| #[trigger]
            defines(a, p, l, v) == defines(b, p, l, v),
        forall|p: Name, v: Name, l: Line, m: Line| #[trigger]
            clear(a, p, v, l, m) == clear(b, p, v, l, m),
{
    a.lemma_repeats(&b);
    assert forall|s: Name| #[trigger] place(a.in_proc@, s) == place(b.in_proc@, s) by {
        lemma_same_place(a.in_proc@, b.in_proc@, s);
    }
    assert forall|s: Name| #[trigger] place(b.in_proc@, s) == place(a.in_proc@, s) by {}
    assert forall|p: Name, l: Line, src: Name, dst: Name, acc: Option<Step>| #[trigger]
        link(a, p, l, src, dst, acc) == link(b, p, l, src, dst, acc) by {
        assert forall|s: Name| #[trigger]
            stmt_link(a@, s, src, dst, acc) == stmt_link(b@, s, src, dst, acc) by {
            lemma_same_statement(a@, b@, s, src, dst, acc);
            lemma_same_statement(b@, a@, s, src, dst, acc);
        }
        assert forall|s: Name| #[trigger]
            stmt_link(b@, s, src, dst, acc) == stmt_link(a@, s, src, dst, acc) by {
            assert(stmt_link(a@, s, src, dst, acc) == stmt_link(b@, s, src, dst, acc));
        }
    }
    assert forall|p: Name, l: Line, v: Name| #[trigger]
        defines(a, p, l, v) == defines(b, p, l, v) by {
        assert forall|s: Name| #[trigger]
            stmt_defines(a@, s, v) == stmt_defines(b@, s, v) by {
            lemma_same_statement(a@, b@, s, v, v, None);
            lemma_same_statement(b@, a@, s, v, v, None);
        }
        assert forall|s: Name| #[trigger]
            stmt_defines(b@, s, v) == stmt_defines(a@, s, v) by {
            assert(stmt_defines(a@, s, v) == stmt_defines(b@, s, v));
        }
    }
    assert forall|p: Name, v: Name, l: Line, m: Line| #[trigger]
        clear(a, p, v, l, m) == clear(b, p, v, l, m) by {
        if clear(a, p, v, l, m) {
            assert forall|n: Line| l < n < m implies !#[trigger] defines(b, p, n, v) by {
                assert(defines(a, p, n, v) == defines(b, p, n, v));
            }
        }
    }
}

proof fn lemma_same_hangs(
    a: Program,
    b: Program,
    max: Option<usize>,
    p: Name,
    v: Name,
    rho: Seq<Step>,
    l: Line,
)
    requires
        a.repeats_facts(&b),
        hangs(a, max, p, v, rho, l),
    ensures
        hangs(b, max, p, v, rho, l),
    decreases usize::MAX - l,
{
    lemma_same_links(a, b);
    let (src, acc) = choose|src: Name, acc: Option<Step>| #[trigger]
        link(a, p, l, src, v, acc) && match acc {
            None => reaches(a, max, p, src, rho, l),
            Some(x) => {
                &&& rho[0] == x
                &&& under(max, rho.len())
                &&& rho.len() == 1 || reaches(a, max, p, src, rho.drop_first(), l)
            },
        };
    let rest = match acc {
        None => rho,
        Some(x) => rho.drop_first(),
    };
    if acc is None || rho.len() != 1 {
        let m = choose|m: Line|
            l < m && hangs(a, max, p, src, rest, m) && #[trigger] clear(a, p, src, l, m);
        lemma_same_hangs(a, b, max, p, src, rest, m);
        assert(clear(a, p, src, l, m));
        assert(clear(b, p, src, l, m));
        assert(reaches(b, max, p, src, rest, l));
    }
    assert(link(a, p, l, src, v, acc));
    assert(link(b, p, l, src, v, acc));
}

proof fn lemma_repeats_back(a: Program, b: Program)
    requires
        a.repeats_facts(&b),
    ensures
        b.repeats_facts(&a),
{
}

/// The bound that the syntax gives does not depend on the vocabulary a program carries:
/// programs whose other relations are the same have the same bound.
pub proof fn law_syntax_ignores_the_vocabulary(a: Program, b: Program, bound: Bound)
    requires
        a.repeats_facts(&b),
    ensures
        vocabulary(a, bound) == vocabulary(b, bound),
{
    let max = bound.max_depth;
    lemma_repeats_back(a, b);
    assert forall|rho: Seq<Step>| spelled(a, max).contains(rho) == spelled(b,
        max).contains(rho) by {
        if rho.len() > 0 && spelled(a, max).contains(rho) {
            let (p, v, l) = choose|p: Name, v: Name, l: Line| hangs(a, max, p, v, rho, l);
            lemma_same_hangs(a, b, max, p, v, rho, l);
        }
        if rho.len() > 0 && spelled(b, max).contains(rho) {
            let (p, v, l) = choose|p: Name, v: Name, l: Line| hangs(b, max, p, v, rho, l);
            lemma_same_hangs(b, a, max, p, v, rho, l);
        }
    }
    assert(spelled(a, max) =~= spelled(b, max));
}

/// Installing a bound a second time changes nothing.
pub proof fn law_installing_again_changes_nothing(
    prog: Program,
    bound: Bound,
    once: Program,
    twice: Program,
)
    requires
        installed(once, prog, bound),
        installed(twice, once, bound),
    ensures
        twice.repeats(&once),
        twice@ == once@,
{
    law_syntax_ignores_the_vocabulary(once, prog, bound);
    let (a, b) = (suffixes(twice.paths@), suffixes(once.paths@));
    lemma_suffixes(twice.paths@);
    lemma_suffixes(once.paths@);
    law_order_is_unique(a, b);
    assert forall|i: int| 0 <= i < once.paths@.len() implies (#[trigger] twice.paths@[i]).0@
        == once.paths@[i].0@ by {
        assert(a[i]@ == b[i]@);
    }
}

/// A run takes an installed bound as it is.
pub proof fn law_runs_use_the_installed_bound(prog: Program, bound: Bound, r: Program)
    requires
        installed(r, prog, bound),
    ensures
        chosen(r) == vocabulary(prog, bound),
{
    law_empty_suffix_is_admitted(prog, bound);
    assert(suffix_set(r.paths@).contains(Seq::empty()));
}

proof fn lemma_suffixes(paths: Seq<(Suffix,)>)
    ensures
        tuples(suffixes(paths)) == suffix_set(paths),
{
    let list = suffixes(paths);
    assert forall|x: Seq<Step>| tuples(list).contains(x) implies #[trigger] suffix_set(
        paths,
    ).contains(x) by {
        let i = choose|i: int| 0 <= i < list.len() && (#[trigger] list[i])@ == x;
        assert(paths[i].0@ == x);
    }
    assert forall|x: Seq<Step>| #[trigger] suffix_set(paths).contains(x) implies tuples(
        list,
    ).contains(x) by {
        let i = choose|i: int| 0 <= i < paths.len() && (#[trigger] paths[i]).0@ == x;
        assert(list[i]@ == x);
    }
    assert(tuples(list) =~= suffix_set(paths));
}

/// A suffix that hangs off a variable hangs there with each of its nonempty
/// prefixes.
pub proof fn lemma_hangs_prefix(
    prog: Program,
    max: Option<usize>,
    p: Name,
    v: Name,
    rho: Seq<Step>,
    l: Line,
    n: nat,
)
    requires
        hangs(prog, max, p, v, rho, l),
        0 < n <= rho.len(),
    ensures
        hangs(prog, max, p, v, rho.take(n as int), l),
    decreases usize::MAX - l,
{
    let (src, acc) = choose|src: Name, acc: Option<Step>| #[trigger]
        link(prog, p, l, src, v, acc) && match acc {
            None => reaches(prog, max, p, src, rho, l),
            Some(a) => {
                &&& rho[0] == a
                &&& under(max, rho.len())
                &&& rho.len() == 1 || reaches(prog, max, p, src, rho.drop_first(), l)
            },
        };
    let cut = rho.take(n as int);
    match acc {
        None => {
            let m = choose|m: Line|
                l < m && hangs(prog, max, p, src, rho, m) && #[trigger] clear(prog, p, src, l, m);
            lemma_hangs_prefix(prog, max, p, src, rho, m, n);
            assert(reaches(prog, max, p, src, cut, l));
        },
        Some(a) => {
            if n > 1 {
                let tail = rho.drop_first();
                let m = choose|m: Line|
                    l < m && hangs(prog, max, p, src, tail, m) && #[trigger] clear(
                        prog,
                        p,
                        src,
                        l,
                        m,
                    );
                lemma_hangs_prefix(prog, max, p, src, tail, m, (n - 1) as nat);
                assert(cut.drop_first() =~= tail.take(n - 1));
                assert(reaches(prog, max, p, src, cut.drop_first(), l));
            }
        },
    }
    assert(link(prog, p, l, src, v, acc));
}

/// No suffix that hangs off a variable is longer than the cap.
pub proof fn lemma_hangs_capped(
    prog: Program,
    max: Option<usize>,
    p: Name,
    v: Name,
    rho: Seq<Step>,
    l: Line,
)
    requires
        hangs(prog, max, p, v, rho, l),
    ensures
        rho.len() > 0,
        under(max, rho.len()),
    decreases usize::MAX - l,
{
    let (src, acc) = choose|src: Name, acc: Option<Step>| #[trigger]
        link(prog, p, l, src, v, acc) && match acc {
            None => reaches(prog, max, p, src, rho, l),
            Some(a) => {
                &&& rho[0] == a
                &&& under(max, rho.len())
                &&& rho.len() == 1 || reaches(prog, max, p, src, rho.drop_first(), l)
            },
        };
    if acc is None {
        let m = choose|m: Line|
            l < m && hangs(prog, max, p, src, rho, m) && #[trigger] clear(prog, p, src, l, m);
        lemma_hangs_capped(prog, max, p, src, rho, m);
    }
}

/// What fewer factors give, more factors give.
proof fn lemma_folded_grows(base: Set<Seq<Step>>, max: Option<usize>, n: nat)
    ensures
        base.subset_of(folded(base, max, n)),
    decreases n,
{
    if n > 1 {
        lemma_folded_grows(base, max, (n - 1) as nat);
    }
}

/// The lines of `p` from `l` on that hold a statement.
pub open spec fn lines_from(prog: Program, p: Name, l: Line) -> Set<Line> {
    Set::new(
        |m: Line|
            l <= m && exists|s: Name| #[trigger] place(prog.in_proc@, s) == Some((p, m)),
    )
}

proof fn lemma_placed_line(v: Seq<(Stmt, Proc, Line)>, s: Name, p: Name, m: Line)
    requires
        place(v, s) == Some((p, m)),
    ensures
        v.map_values(|x: (Stmt, Proc, Line)| x.2).contains(m),
    decreases v.len(),
{
    let lines = v.map_values(|x: (Stmt, Proc, Line)| x.2);
    if v.last().0@ == s {
        assert(lines[v.len() - 1] == m);
    } else {
        let rest = v.drop_last();
        lemma_placed_line(rest, s, p, m);
        let few = rest.map_values(|x: (Stmt, Proc, Line)| x.2);
        let i = choose|i: int| 0 <= i < few.len() && few[i] == m;
        assert(lines[i] == m);
    }
}

proof fn lemma_lines_finite(prog: Program, p: Name, l: Line)
    ensures
        lines_from(prog, p, l).finite(),
{
    let lines = prog.in_proc@.map_values(|x: (Stmt, Proc, Line)| x.2);
    vstd::seq_lib::seq_to_set_is_finite(lines);
    assert(lines_from(prog, p, l).subset_of(lines.to_set())) by {
        assert forall|m: Line| lines_from(prog, p, l).contains(m) implies lines.to_set().contains(
            m,
        ) by {
            let s = choose|s: Name| #[trigger] place(prog.in_proc@, s) == Some((p, m));
            lemma_placed_line(prog.in_proc@, s, p, m);
        }
    }
    vstd::set_lib::lemma_len_subset(lines_from(prog, p, l), lines.to_set());
}

/// A chain visits each line at most once, so a suffix that hangs at a line has at most
/// as many accessors as the procedure has lines from there on.
pub proof fn law_suffixes_fit_the_procedure(
    prog: Program,
    max: Option<usize>,
    p: Name,
    v: Name,
    rho: Seq<Step>,
    l: Line,
)
    requires
        hangs(prog, max, p, v, rho, l),
    ensures
        lines_from(prog, p, l).finite(),
        rho.len() <= lines_from(prog, p, l).len(),
    decreases usize::MAX - l,
{
    let here = lines_from(prog, p, l);
    lemma_lines_finite(prog, p, l);
    let (src, acc) = choose|src: Name, acc: Option<Step>| #[trigger]
        link(prog, p, l, src, v, acc) && match acc {
            None => reaches(prog, max, p, src, rho, l),
            Some(a) => {
                &&& rho[0] == a
                &&& under(max, rho.len())
                &&& rho.len() == 1 || reaches(prog, max, p, src, rho.drop_first(), l)
            },
        };
    let s = choose|s: Name| #[trigger]
        place(prog.in_proc@, s) == Some((p, l)) && stmt_link(prog@, s, src, v, acc);
    assert(place(prog.in_proc@, s) == Some((p, l)));
    assert(here.contains(l));
    let rest = match acc {
        None => rho,
        Some(a) => rho.drop_first(),
    };
    if acc is None || rho.len() != 1 {
        let m = choose|m: Line|
            l < m && hangs(prog, max, p, src, rest, m) && #[trigger] clear(prog, p, src, l, m);
        law_suffixes_fit_the_procedure(prog, max, p, src, rest, m);
        let there = lines_from(prog, p, m);
        assert(there.insert(l).subset_of(here));
        vstd::set_lib::lemma_len_subset(there.insert(l), here);
    } else {
        assert(set![l].subset_of(here));
        vstd::set_lib::lemma_len_subset(set![l], here);
    }
}

/// A capped suffix is one that the syntax spells and the cap leaves.
proof fn lemma_hangs_truncated(
    prog: Program,
    d: usize,
    p: Name,
    v: Name,
    rho: Seq<Step>,
    l: Line,
)
    ensures
        hangs(prog, Some(d), p, v, rho, l) <==> hangs(prog, None, p, v, rho, l) && rho.len() <= d,
    decreases usize::MAX - l,
{
    let cap = Some(d);
    if hangs(prog, cap, p, v, rho, l) {
        let (src, acc) = choose|src: Name, acc: Option<Step>| #[trigger]
            link(prog, p, l, src, v, acc) && match acc {
                None => reaches(prog, cap, p, src, rho, l),
                Some(a) => {
                    &&& rho[0] == a
                    &&& under(cap, rho.len())
                    &&& rho.len() == 1 || reaches(prog, cap, p, src, rho.drop_first(), l)
                },
            };
        let rest = match acc {
            None => rho,
            Some(a) => rho.drop_first(),
        };
        if acc is None || rho.len() != 1 {
            let m = choose|m: Line|
                l < m && hangs(prog, cap, p, src, rest, m) && #[trigger] clear(prog, p, src, l, m);
            lemma_hangs_truncated(prog, d, p, src, rest, m);
            assert(clear(prog, p, src, l, m));
            assert(reaches(prog, None, p, src, rest, l));
        }
        assert(link(prog, p, l, src, v, acc));
    }
    if hangs(prog, None, p, v, rho, l) && rho.len() <= d {
        let (src, acc) = choose|src: Name, acc: Option<Step>| #[trigger]
            link(prog, p, l, src, v, acc) && match acc {
                None => reaches(prog, None, p, src, rho, l),
                Some(a) => {
                    &&& rho[0] == a
                    &&& under(None, rho.len())
                    &&& rho.len() == 1 || reaches(prog, None, p, src, rho.drop_first(), l)
                },
            };
        let rest = match acc {
            None => rho,
            Some(a) => rho.drop_first(),
        };
        if acc is None || rho.len() != 1 {
            let m = choose|m: Line|
                l < m && hangs(prog, None, p, src, rest, m) && #[trigger] clear(prog, p, src, l, m);
            lemma_hangs_truncated(prog, d, p, src, rest, m);
            assert(clear(prog, p, src, l, m));
            assert(reaches(prog, cap, p, src, rest, l));
        }
        assert(link(prog, p, l, src, v, acc));
    }
}

proof fn lemma_spelled_truncated(prog: Program, d: usize, rho: Seq<Step>)
    ensures
        spelled(prog, Some(d)).contains(rho) <==> spelled(prog, None).contains(rho) && rho.len()
            <= d,
{
    if rho.len() > 0 {
        if spelled(prog, Some(d)).contains(rho) {
            let (p, v, l) = choose|p: Name, v: Name, l: Line| hangs(prog, Some(d), p, v, rho, l);
            lemma_hangs_truncated(prog, d, p, v, rho, l);
        }
        if spelled(prog, None).contains(rho) && rho.len() <= d {
            let (p, v, l) = choose|p: Name, v: Name, l: Line| hangs(prog, None, p, v, rho, l);
            lemma_hangs_truncated(prog, d, p, v, rho, l);
        }
    }
}

proof fn lemma_folded_truncated(prog: Program, d: usize, n: nat, rho: Seq<Step>)
    ensures
        folded(spelled(prog, Some(d)), Some(d), n).contains(rho) <==> folded(
            spelled(prog, None),
            None,
            n,
        ).contains(rho) && rho.len() <= d,
    decreases n,
{
    lemma_spelled_truncated(prog, d, rho);
    if n > 1 {
        let (a, b) = (spelled(prog, Some(d)), spelled(prog, None));
        let k = (n - 1) as nat;
        let (fa, fb) = (folded(a, Some(d), k), folded(b, None, k));
        lemma_folded_truncated(prog, d, k, rho);
        if folded(a, Some(d), n).contains(rho) && !fa.contains(rho) {
            let (x, y) = choose|x: Seq<Step>, y: Seq<Step>| #[trigger]
                fa.contains(x) && #[trigger] a.contains(y) && x.len() > 0 && y.len() > 0 && rho == x
                    + y && under(Some(d), rho.len());
            lemma_folded_truncated(prog, d, k, x);
            lemma_spelled_truncated(prog, d, y);
            assert(fb.contains(x) && b.contains(y));
        }
        if folded(b, None, n).contains(rho) && rho.len() <= d && !fb.contains(rho) {
            let (x, y) = choose|x: Seq<Step>, y: Seq<Step>| #[trigger]
                fb.contains(x) && #[trigger] b.contains(y) && x.len() > 0 && y.len() > 0 && rho == x
                    + y && under(None, rho.len());
            lemma_folded_truncated(prog, d, k, x);
            lemma_spelled_truncated(prog, d, y);
            assert(fa.contains(x) && a.contains(y));
        }
    }
}

/// A depth truncates the set: what it leaves is what fits, and nothing else goes.
pub proof fn law_depth_truncates(prog: Program, d: usize, fold: usize, rho: Seq<Step>)
    ensures
        vocabulary(prog, Bound { max_depth: Some(d), fold }).contains(rho) <==> vocabulary(
            prog,
            Bound { max_depth: None, fold },
        ).contains(rho) && rho.len() <= d,
{
    lemma_folded_truncated(prog, d, fold as nat, rho);
}

/// Folding more widens the set.
pub proof fn law_folding_widens(prog: Program, max_depth: Option<usize>, m: usize, n: usize)
    requires
        m <= n,
    ensures
        vocabulary(prog, Bound { max_depth, fold: m }).subset_of(
            vocabulary(prog, Bound { max_depth, fold: n }),
        ),
    decreases n,
{
    if m < n {
        let k = (n - 1) as usize;
        law_folding_widens(prog, max_depth, m, k);
        assert(folded(spelled(prog, max_depth), max_depth, k as nat).subset_of(
            folded(spelled(prog, max_depth), max_depth, n as nat),
        ));
    }
}

/// Every accessor that a placed statement spells is admitted by itself, unless the depth
/// forbids any.
pub proof fn law_statements_spell_admitted_accessors(
    prog: Program,
    bound: Bound,
    s: Name,
    src: Name,
    dst: Name,
    a: Step,
)
    requires
        place(prog.in_proc@, s) is Some,
        stmt_link(prog@, s, src, dst, Some(a)),
        under(bound.max_depth, 1),
    ensures
        vocabulary(prog, bound).contains(seq![a]),
{
    let (p, l) = place(prog.in_proc@, s)->0;
    let rho = seq![a];
    assert(place(prog.in_proc@, s) == Some((p, l)));
    assert(link(prog, p, l, src, dst, Some(a)));
    assert(hangs(prog, bound.max_depth, p, dst, rho, l));
    assert(spelled(prog, bound.max_depth).contains(rho));
    lemma_folded_grows(spelled(prog, bound.max_depth), bound.max_depth, bound.fold as nat);
}

/// The vocabulary always contains the empty suffix, whatever the knobs.
pub proof fn law_empty_suffix_is_admitted(prog: Program, bound: Bound)
    ensures
        vocabulary(prog, bound).contains(Seq::<Step>::empty()),
{
    lemma_folded_grows(spelled(prog, bound.max_depth), bound.max_depth, bound.fold as nat);
    assert(spelled(prog, bound.max_depth).contains(Seq::<Step>::empty()));
}

/// No suffix of the vocabulary is longer than `max_depth`.
pub proof fn law_vocabulary_is_capped(prog: Program, bound: Bound, rho: Seq<Step>)
    requires
        vocabulary(prog, bound).contains(rho),
    ensures
        under(bound.max_depth, rho.len()),
{
    lemma_folded_capped(prog, bound.max_depth, bound.fold as nat, rho);
}

proof fn lemma_folded_capped(prog: Program, max: Option<usize>, n: nat, rho: Seq<Step>)
    requires
        folded(spelled(prog, max), max, n).contains(rho),
    ensures
        under(max, rho.len()),
    decreases n,
{
    if n <= 1 {
        if rho.len() > 0 {
            let (p, v, l) = choose|p: Name, v: Name, l: Line| hangs(prog, max, p, v, rho, l);
            lemma_hangs_capped(prog, max, p, v, rho, l);
        }
    } else {
        if folded(spelled(prog, max), max, (n - 1) as nat).contains(rho) {
            lemma_folded_capped(prog, max, (n - 1) as nat, rho);
        }
    }
}

/// The vocabulary is prefix-closed, whatever the knobs.
pub proof fn law_vocabulary_is_prefix_closed(prog: Program, bound: Bound, rho: Seq<Step>, n: nat)
    requires
        vocabulary(prog, bound).contains(rho),
        n <= rho.len(),
    ensures
        vocabulary(prog, bound).contains(rho.take(n as int)),
{
    lemma_folded_prefix(prog, bound.max_depth, bound.fold as nat, rho, n);
}

proof fn lemma_spelled_prefix(prog: Program, max: Option<usize>, rho: Seq<Step>, n: nat)
    requires
        spelled(prog, max).contains(rho),
        n <= rho.len(),
    ensures
        spelled(prog, max).contains(rho.take(n as int)),
{
    if n > 0 {
        let (p, v, l) = choose|p: Name, v: Name, l: Line| hangs(prog, max, p, v, rho, l);
        lemma_hangs_prefix(prog, max, p, v, rho, l, n);
    }
}

proof fn lemma_folded_prefix(prog: Program, max: Option<usize>, k: nat, rho: Seq<Step>, n: nat)
    requires
        folded(spelled(prog, max), max, k).contains(rho),
        n <= rho.len(),
    ensures
        folded(spelled(prog, max), max, k).contains(rho.take(n as int)),
    decreases k,
{
    let base = spelled(prog, max);
    if k <= 1 {
        lemma_spelled_prefix(prog, max, rho, n);
    } else {
        let shorter = folded(base, max, (k - 1) as nat);
        if shorter.contains(rho) {
            lemma_folded_prefix(prog, max, (k - 1) as nat, rho, n);
        } else {
            let (a, b) = choose|a: Seq<Step>, b: Seq<Step>| #[trigger]
                shorter.contains(a) && #[trigger] base.contains(b) && a.len() > 0 && b.len() > 0
                    && rho == a + b && under(max, rho.len());
            if n <= a.len() {
                lemma_folded_prefix(prog, max, (k - 1) as nat, a, n);
                assert(rho.take(n as int) =~= a.take(n as int));
            } else {
                let m = (n - a.len()) as nat;
                lemma_spelled_prefix(prog, max, b, m);
                assert(rho.take(n as int) =~= a + b.take(m as int));
                assert(base.contains(b.take(m as int)));
            }
        }
    }
}

/// Folding twice admits the concatenation of any two spelled suffixes that stays
/// within the cap.
pub proof fn law_folding_concatenates(
    prog: Program,
    bound: Bound,
    a: Seq<Step>,
    b: Seq<Step>,
)
    requires
        spelled(prog, bound.max_depth).contains(a),
        spelled(prog, bound.max_depth).contains(b),
        under(bound.max_depth, (a + b).len()),
        bound.fold >= 2,
    ensures
        vocabulary(prog, bound).contains(a + b),
{
    let base = spelled(prog, bound.max_depth);
    lemma_folded_two(base, bound.max_depth, bound.fold as nat, a, b);
}

proof fn lemma_folded_two(
    base: Set<Seq<Step>>,
    max: Option<usize>,
    n: nat,
    a: Seq<Step>,
    b: Seq<Step>,
)
    requires
        base.contains(a),
        base.contains(b),
        under(max, (a + b).len()),
        n >= 2,
    ensures
        folded(base, max, n).contains(a + b),
    decreases n,
{
    if n > 2 {
        lemma_folded_two(base, max, (n - 1) as nat, a, b);
    } else {
        reveal_with_fuel(folded, 2);
        let shorter = folded(base, max, 1);
        assert(shorter == base);
        if a.len() == 0 {
            assert(a + b =~= b);
            lemma_folded_grows(base, max, n);
        } else if b.len() == 0 {
            assert(a + b =~= a);
            lemma_folded_grows(base, max, n);
        } else {
            assert(shorter.contains(a) && base.contains(b));
        }
    }
}

// ---------------------------------------------------------------------------
// Computing the bound
// ---------------------------------------------------------------------------

/// The rows spell exactly the suffixes of a set.
pub open spec fn flats_are(t: Seq<Seq<usize>>, ns: Seq<Name>, set: Set<Seq<Step>>) -> bool {
    &&& forall|row: Seq<usize>| #[trigger]
        t.contains(row) ==> flat_ok(ns, row) && set.contains(flat_steps(ns, row))
    &&& forall|x: Seq<Step>| #[trigger]
        set.contains(x) ==> exists|row: Seq<usize>| #[trigger]
            t.contains(row) && flat_steps(ns, row) == x
}

/// A row without its first `n` numbers.
fn tail_of(row: &Vec<usize>, n: usize) -> (r: Vec<usize>)
    requires
        n <= row@.len(),
    ensures
        r@ == row@.skip(n as int),
{
    let mut r: Vec<usize> = Vec::new();
    let mut z: usize = n;
    while z < row.len()
        invariant
            n <= z <= row@.len(),
            r@ == row@.subrange(n as int, z as int),
        decreases row@.len() - z,
    {
        r.push(row[z]);
        proof {
            assert(row@.subrange(n as int, z + 1) =~= row@.subrange(n as int, z as int).push(
                row@[z as int],
            ));
        }
        z += 1;
    }
    proof {
        assert(r@ =~= row@.skip(n as int));
    }
    r
}

/// The suffixes of the rows of a walk, and the empty one.
fn spelled_flats(t: &Table, Ghost(w): Ghost<Walk>, Ghost(spots): Ghost<Seq<Seq<usize>>>)
    -> (out: Table)
    requires
        t.wf(),
        w.rows_ok(t@, spots),
        forall|p: Name, v: Name, rho: Seq<Step>, l: Line| #[trigger]
            hangs(w.prog, w.max, p, v, rho, l) ==> exists|row: Seq<usize>| #[trigger]
                t@.contains(row) && flat_steps(w.ns, row.skip(2)) == rho,
    ensures
        out.wf(),
        flats_are(out@, w.ns, spelled(w.prog, w.max)),
{
    let ghost set = spelled(w.prog, w.max);
    let mut out = Table::new();
    let nothing: Vec<usize> = Vec::new();
    proof {
        assert(flat_ok(w.ns, nothing@));
        assert(flat_steps(w.ns, nothing@) =~= Seq::<Step>::empty());
        assert(nothing@ =~= Seq::<usize>::empty());
    }
    out.insert(nothing);
    let mut i: usize = 0;
    while i < t.len()
        invariant
            i <= t@.len(),
            w.rows_ok(t@, spots),
            set == spelled(w.prog, w.max),
            out.wf(),
            out@.contains(Seq::<usize>::empty()),
            forall|row: Seq<usize>| #[trigger]
                out@.contains(row) ==> flat_ok(w.ns, row) && set.contains(flat_steps(w.ns, row)),
            forall|j: int| 0 <= j < i ==> out@.contains((#[trigger] t@[j]).skip(2)),
        decreases t@.len() - i,
    {
        proof {
            assert(t@.contains(t@[i as int]));
            assert(w.row_ok(t@[i as int], spots));
        }
        let f = tail_of(t.row(i), 2);
        out.insert(f);
        i += 1;
    }
    proof {
        assert forall|x: Seq<Step>| #[trigger] set.contains(x)
            implies exists|row: Seq<usize>| #[trigger]
            out@.contains(row) && flat_steps(w.ns, row) == x by {
            if x.len() == 0 {
                let row = Seq::<usize>::empty();
                assert(flat_steps(w.ns, row) =~= x);
                assert(out@.contains(row));
            } else {
                let (p, v, l) = choose|p: Name, v: Name, l: Line|
                    hangs(w.prog, w.max, p, v, x, l);
                let row = choose|row: Seq<usize>| #[trigger]
                    t@.contains(row) && flat_steps(w.ns, row.skip(2)) == x;
                let j = choose|j: int| 0 <= j < t@.len() && t@[j] == row;
                assert(out@.contains(t@[j].skip(2)));
            }
        }
    }
    out
}

/// Two rows one after the other.
fn join(a: &Vec<usize>, b: &Vec<usize>) -> (r: Vec<usize>)
    ensures
        r@ == a@ + b@,
{
    let mut r = copy_row(a.as_slice());
    let mut i: usize = 0;
    while i < b.len()
        invariant
            i <= b@.len(),
            r@ == a@ + b@.take(i as int),
        decreases b@.len() - i,
    {
        r.push(b[i]);
        proof {
            assert(b@.take(i + 1) =~= b@.take(i as int).push(b@[i as int]));
            assert(r@ =~= a@ + b@.take(i + 1));
        }
        i += 1;
    }
    proof {
        assert(b@.take(i as int) =~= b@);
    }
    r
}

/// `x` is a concatenation that one more factor admits.
pub open spec fn joins(
    shorter: Set<Seq<Step>>,
    base: Set<Seq<Step>>,
    max: Option<usize>,
    x: Seq<Step>,
) -> bool {
    exists|a: Seq<Step>, b: Seq<Step>| #[trigger]
        shorter.contains(a) && #[trigger] base.contains(b) && a.len() > 0 && b.len() > 0
            && x == a + b
            && under(max, x.len())
}

proof fn lemma_folded_step(base: Set<Seq<Step>>, max: Option<usize>, n: nat)
    requires
        n >= 1,
    ensures
        folded(base, max, n + 1) == folded(base, max, n).union(
            Set::new(|x: Seq<Step>| joins(folded(base, max, n), base, max, x)),
        ),
{
    let shorter = folded(base, max, n);
    assert(folded(base, max, n + 1) =~= shorter.union(
        Set::new(|x: Seq<Step>| joins(shorter, base, max, x)),
    ));
}

/// Once a level adds nothing, no later one does.
proof fn lemma_folded_stable(base: Set<Seq<Step>>, max: Option<usize>, n: nat, m: nat)
    requires
        1 <= n <= m,
        folded(base, max, n + 1) == folded(base, max, n),
    ensures
        folded(base, max, m) == folded(base, max, n),
    decreases m,
{
    if m > n {
        lemma_folded_stable(base, max, n, (m - 1) as nat);
        lemma_folded_step(base, max, n);
        lemma_folded_step(base, max, (m - 1) as nat);
    }
}

/// One more factor: join every row of `all` to every row of `base`.
fn fold_once(
    all: &mut Table,
    base: &Table,
    max: Option<usize>,
    Ghost(ns): Ghost<Seq<Name>>,
    Ghost(shorter): Ghost<Set<Seq<Step>>>,
    Ghost(set): Ghost<Set<Seq<Step>>>,
)
    requires
        old(all).wf(),
        base.wf(),
        flats_are(old(all)@, ns, shorter),
        flats_are(base@, ns, set),
    ensures
        final(all).wf(),
        old(all)@.len() <= final(all)@.len(),
        final(all)@.len() == old(all)@.len() ==> final(all)@ == old(all)@,
        flats_are(
            final(all)@,
            ns,
            shorter.union(Set::new(|x: Seq<Step>| joins(shorter, set, max, x))),
        ),
{
    let n: usize = all.len();
    let ghost start = all@;
    let ghost goal = shorter.union(Set::new(|x: Seq<Step>| joins(shorter, set, max, x)));
    let mut i: usize = 0;
    while i < n
        invariant
            i <= n == start.len(),
            n <= all@.len(),
            all.wf(),
            base.wf(),
            flats_are(start, ns, shorter),
            flats_are(base@, ns, set),
            goal == shorter.union(Set::new(|x: Seq<Step>| joins(shorter, set, max, x))),
            forall|j: int| 0 <= j < n ==> #[trigger] all@[j] == start[j],
            forall|row: Seq<usize>| #[trigger]
                all@.contains(row) ==> flat_ok(ns, row) && goal.contains(flat_steps(ns, row)),
            forall|j: int, q: int|
                0 <= j < i && 0 <= q < base@.len() ==> joined(
                    all@,
                    #[trigger] start[j],
                    #[trigger] base@[q],
                    max,
                ),
        decreases n - i,
    {
        let mut q: usize = 0;
        while q < base.len()
            invariant
                i < n == start.len(),
                n <= all@.len(),
                q <= base@.len(),
                all.wf(),
                base.wf(),
                flats_are(start, ns, shorter),
                flats_are(base@, ns, set),
                goal == shorter.union(Set::new(|x: Seq<Step>| joins(shorter, set, max, x))),
                forall|j: int| 0 <= j < n ==> #[trigger] all@[j] == start[j],
                forall|row: Seq<usize>| #[trigger]
                    all@.contains(row) ==> flat_ok(ns, row) && goal.contains(flat_steps(ns, row)),
                forall|j: int, z: int|
                    0 <= j < i && 0 <= z < base@.len() ==> joined(
                        all@,
                        #[trigger] start[j],
                        #[trigger] base@[z],
                        max,
                    ),
                forall|z: int|
                    0 <= z < q ==> joined(all@, start[i as int], #[trigger] base@[z], max),
            decreases base@.len() - q,
        {
            let a = all.row(i);
            let b = base.row(q);
            let ghost before = all@;
            let fits = match max {
                Some(d) => a.len() / 2 <= d && b.len() / 2 <= d - a.len() / 2,
                None => true,
            };
            proof {
                assert(start.contains(start[i as int]));
                assert(base@.contains(base@[q as int]));
                lemma_flat_append(ns, a@, b@);
            }
            if a.len() > 0 && b.len() > 0 && fits {
                let row = join(a, b);
                proof {
                    let x = flat_steps(ns, a@);
                    let y = flat_steps(ns, b@);
                    assert(shorter.contains(x) && set.contains(y));
                    assert(joins(shorter, set, max, x + y));
                    assert(goal.contains(flat_steps(ns, row@)));
                }
                all.insert(row);
                proof {
                    assert forall|j: int, z: int| 0 <= j < i && 0 <= z < base@.len() implies joined(
                        all@,
                        #[trigger] start[j],
                        #[trigger] base@[z],
                        max,
                    ) by {
                        assert(joined(before, start[j], base@[z], max));
                    }
                    assert forall|z: int| 0 <= z < q implies joined(
                        all@,
                        start[i as int],
                        #[trigger] base@[z],
                        max,
                    ) by {
                        assert(joined(before, start[i as int], base@[z], max));
                    }
                }
            }
            q += 1;
        }
        i += 1;
    }
    proof {
        if all@.len() == start.len() {
            assert(all@ =~= start);
        }
        assert forall|x: Seq<Step>| #[trigger] goal.contains(x)
            implies exists|row: Seq<usize>| #[trigger]
            all@.contains(row) && flat_steps(ns, row) == x by {
            if shorter.contains(x) {
                let row = choose|row: Seq<usize>| #[trigger]
                    start.contains(row) && flat_steps(ns, row) == x;
                let j = choose|j: int| 0 <= j < start.len() && start[j] == row;
                assert(all@[j] == row);
                assert(all@.contains(row));
            } else {
                let (a, b) = choose|a: Seq<Step>, b: Seq<Step>| #[trigger]
                    shorter.contains(a) && #[trigger] set.contains(b) && a.len() > 0 && b.len() > 0
                        && x == a + b && under(max, x.len());
                let r = choose|r: Seq<usize>| #[trigger] start.contains(r)
                    && flat_steps(ns, r) == a;
                let s = choose|s: Seq<usize>| #[trigger] base@.contains(s)
                    && flat_steps(ns, s) == b;
                let j = choose|j: int| 0 <= j < start.len() && start[j] == r;
                let q = choose|q: int| 0 <= q < base@.len() && base@[q] == s;
                lemma_flat_append(ns, r, s);
                assert(joined(all@, start[j], base@[q], max));
                assert(all@.contains(r + s));
            }
        }
    }
}

/// The row `a` and `b` make is there, if it is not too long.
pub open spec fn joined(
    t: Seq<Seq<usize>>,
    a: Seq<usize>,
    b: Seq<usize>,
    max: Option<usize>,
) -> bool {
    a.len() > 0 && b.len() > 0 && under(max, a.len() / 2 + b.len() / 2) ==> t.contains(a + b)
}

/// Close the set under concatenation, `n` factors deep.
fn fold(
    base: &Table,
    max: Option<usize>,
    n: usize,
    Ghost(ns): Ghost<Seq<Name>>,
    Ghost(set): Ghost<Set<Seq<Step>>>,
) -> (all: Table)
    requires
        base.wf(),
        flats_are(base@, ns, set),
    ensures
        all.wf(),
        flats_are(all@, ns, folded(set, max, n as nat)),
{
    let mut all = Table::new();
    let mut i: usize = 0;
    while i < base.len()
        invariant
            i <= base@.len(),
            base.wf(),
            all.wf(),
            forall|row: Seq<usize>| #[trigger] all@.contains(row) ==> base@.contains(row),
            forall|j: int| 0 <= j < i ==> all@.contains(#[trigger] base@[j]),
        decreases base@.len() - i,
    {
        let row = copy_row(base.row(i).as_slice());
        proof {
            assert(base@.contains(base@[i as int]));
        }
        all.insert(row);
        i += 1;
    }
    proof {
        assert forall|x: Seq<Step>| #[trigger] set.contains(x)
            implies exists|row: Seq<usize>| #[trigger]
            all@.contains(row) && flat_steps(ns, row) == x by {
            let row = choose|row: Seq<usize>| #[trigger]
                base@.contains(row) && flat_steps(ns, row) == x;
            let j = choose|j: int| 0 <= j < base@.len() && base@[j] == row;
            assert(all@.contains(base@[j]));
        }
    }
    let mut level: usize = 1;
    let mut grew = true;
    while level < n && grew
        invariant
            1 <= level,
            n >= 1 ==> level <= n,
            n == 0 ==> level == 1,
            base.wf(),
            flats_are(base@, ns, set),
            all.wf(),
            flats_are(all@, ns, folded(set, max, level as nat)),
            !grew ==> folded(set, max, n as nat) == folded(set, max, level as nat),
        decreases n - level,
    {
        let size: usize = all.len();
        let ghost shorter = folded(set, max, level as nat);
        let ghost before = all@;
        fold_once(&mut all, base, max, Ghost(ns), Ghost(shorter), Ghost(set));
        proof {
            lemma_folded_step(set, max, level as nat);
            if all@.len() == size {
                let more = folded(set, max, (level + 1) as nat);
                assert(more =~= shorter) by {
                    assert forall|x: Seq<Step>| more.contains(x)
                        implies #[trigger] shorter.contains(x) by {
                        let row = choose|row: Seq<usize>| #[trigger]
                            all@.contains(row) && flat_steps(ns, row) == x;
                        assert(before.contains(row));
                    }
                }
                lemma_folded_stable(set, max, level as nat, n as nat);
                assert(folded(set, max, n as nat) == more);
            }
        }
        if all.len() == size {
            grew = false;
        }
        level += 1;
    }
    proof {
        if n == 0 {
            assert(folded(set, max, 0) == folded(set, max, 1));
        }
    }
    all
}

/// The suffix that a row spells.
fn suffix_of(ns: &Names, row: &Vec<usize>) -> (r: Suffix)
    requires
        ns.wf(),
        flat_ok(ns@, row@),
    ensures
        r@ == flat_steps(ns@, row@),
{
    let width: usize = row.len();
    let n: usize = width / 2;
    let mut accessors: Vec<Accessor> = Vec::new();
    let mut j: usize = 0;
    while j < n
        invariant
            j <= n,
            width == row@.len(),
            n == width / 2,
            flat_ok(ns@, row@),
            accessors@.len() == j,
            forall|z: int| 0 <= z < j ==> (#[trigger] accessors@[z])@ == flat_steps(ns@, row@)[z],
        decreases n - j,
    {
        proof {
            assert(2 * j + 1 < row@.len());
            assert(step_ok(ns@, row@[2 * (j as int)], row@[2 * (j as int) + 1]));
        }
        let at: usize = j + j;
        let tag: usize = row[at];
        let x: usize = row[at + 1];
        let a = if tag == 0 {
            Accessor::Field(Field::of(ns.text(x).clone()))
        } else if tag == 1 {
            Accessor::Index(Const::of(ns.text(x).clone()))
        } else {
            Accessor::IndexUnknown
        };
        accessors.push(a);
        j += 1;
    }
    let r = Suffix(accessors);
    proof {
        assert(r@ =~= flat_steps(ns@, row@));
    }
    r
}

/// The suffixes that the rows spell, in order.
fn list_suffixes(ns: &Names, t: &Table, Ghost(set): Ghost<Set<Seq<Step>>>) -> (r: Vec<Suffix>)
    requires
        ns.wf(),
        t.wf(),
        flats_are(t@, ns@, set),
    ensures
        tuples(r@) == set,
        ascending(r@),
{
    let mut list: Vec<Suffix> = Vec::new();
    let mut i: usize = 0;
    while i < t.len()
        invariant
            i <= t@.len(),
            ns.wf(),
            flats_are(t@, ns@, set),
            list@.len() == i,
            forall|j: int| 0 <= j < i ==> (#[trigger] list@[j])@ == flat_steps(ns@, t@[j]),
        decreases t@.len() - i,
    {
        proof {
            assert(t@.contains(t@[i as int]));
        }
        let s = suffix_of(ns, t.row(i));
        list.push(s);
        i += 1;
    }
    proof {
        assert(tuples(list@) =~= set) by {
            assert forall|x: Seq<Step>| #[trigger] tuples(list@).contains(x)
                implies set.contains(x) by {
                let i = choose|i: int| 0 <= i < list@.len() && (#[trigger] list@[i])@ == x;
                assert(t@.contains(t@[i]));
            }
            assert forall|x: Seq<Step>| set.contains(x)
                implies #[trigger] tuples(list@).contains(x) by {
                let row = choose|row: Seq<usize>| #[trigger]
                    t@.contains(row) && flat_steps(ns@, row) == x;
                let i = choose|i: int| 0 <= i < t@.len() && t@[i] == row;
                assert(list@[i]@ == x);
            }
        }
    }
    ordered(&list)
}

/// The suffixes `prog`'s statements spell out, concatenated along local data
/// flow, in order.
pub fn syntactic(prog: &Program, bound: &Bound) -> (r: Vec<Suffix>)
    ensures
        tuples(r@) == vocabulary(*prog, *bound),
        ascending(r@),
{
    let mut names = Names::new();
    let statics = table_four(&mut names, &prog.load_static);
    let ghost n0 = names@;
    let seats = Seats::of_list(&mut names, &prog.in_proc);
    let ghost n1 = names@;
    let facts = Facts::of_program(&mut names, prog);
    let ghost ns = names@;
    proof {
        names.lemma_distinct();
        seats.lemma_grow(n1, ns, prog.in_proc@);
        lemma_grow_four(statics@, n0, n1, prog@.load_static);
        lemma_grow_four(statics@, n1, ns, prog@.load_static);
    }
    let ghost w = Walk { prog: *prog, max: bound.max_depth, ns };
    let mut writes = find_writes(&facts, &statics, &seats, prog, Ghost(ns));
    let links = find_links(&facts, &seats, prog, Ghost(ns));
    let indices = decidable_indices(&facts, Ghost(ns), Ghost(prog@));
    let t = collect(&links, &indices, &mut writes, bound.max_depth, Ghost(w));
    let base = spelled_flats(&t, Ghost(w), Ghost(writes.spots@));
    let ghost set = spelled(*prog, bound.max_depth);
    let all = fold(&base, bound.max_depth, bound.fold, Ghost(ns), Ghost(set));
    list_suffixes(&names, &all, Ghost(vocabulary(*prog, *bound)))
}

/// The access-path bound to run `prog` under: whatever it carries in `paths`,
/// and otherwise [`syntactic`] under the default [`Bound`], in order.
///
/// A program with an empty `paths` is taken to mean "no bound was chosen", not
/// "no path is admissible": the latter would forbid every field access, and is
/// spelled by supplying just the empty suffix.
pub fn for_program(prog: &Program) -> (r: Vec<Suffix>)
    ensures
        tuples(r@) == chosen(*prog),
        ascending(r@),
{
    if prog.paths.len() == 0 {
        let bound = Bound { max_depth: None, fold: 1 };
        syntactic(prog, &bound)
    } else {
        let mut list: Vec<Suffix> = Vec::new();
        let mut i: usize = 0;
        while i < prog.paths.len()
            invariant
                i <= prog.paths@.len(),
                list@.len() == i,
                forall|j: int| 0 <= j < i ==> (#[trigger] list@[j])@ == prog.paths@[j].0@,
            decreases prog.paths@.len() - i,
        {
            list.push(prog.paths[i].0.clone());
            i += 1;
        }
        proof {
            assert(tuples(list@) =~= prog@.paths) by {
                assert forall|x: Seq<Step>| prog@.paths.contains(x) implies #[trigger] tuples(
                    list@,
                ).contains(x) by {
                    let i = choose|i: int|
                        0 <= i < prog.paths@.len() && (#[trigger] prog.paths@[i]).0@ == x;
                    assert(list@[i]@ == x);
                }
                assert forall|x: Seq<Step>| #[trigger] tuples(list@).contains(x)
                    implies prog@.paths.contains(
                    x,
                ) by {
                    let i = choose|i: int| 0 <= i < list@.len() && (#[trigger] list@[i])@ == x;
                    assert(prog.paths@[i].0@ == x);
                }
            }
        }
        ordered(&list)
    }
}

/// A list of suffixes as a relation.
pub fn as_relation(list: &Vec<Suffix>) -> (r: Vec<(Suffix,)>)
    ensures
        r@.len() == list@.len(),
        forall|j: int| 0 <= j < r@.len() ==> (#[trigger] r@[j]).0@ == list@[j]@,
        suffix_set(r@) == tuples(list@),
        ascending(list@) ==> ascending(suffixes(r@)),
{
    let mut r: Vec<(Suffix,)> = Vec::new();
    let mut i: usize = 0;
    while i < list.len()
        invariant
            i <= list@.len(),
            r@.len() == i,
            forall|j: int| 0 <= j < i ==> (#[trigger] r@[j]).0@ == list@[j]@,
        decreases list@.len() - i,
    {
        r.push((list[i].clone(),));
        i += 1;
    }
    proof {
        assert(suffix_set(r@) =~= tuples(list@)) by {
            assert forall|x: Seq<Step>| tuples(list@).contains(x) implies #[trigger] suffix_set(
                r@,
            ).contains(x) by {
                let i = choose|i: int| 0 <= i < list@.len() && (#[trigger] list@[i])@ == x;
                assert(r@[i].0@ == x);
            }
            assert forall|x: Seq<Step>| #[trigger] suffix_set(r@).contains(x) implies tuples(
                list@,
            ).contains(x) by {
                let i = choose|i: int| 0 <= i < r@.len() && (#[trigger] r@[i]).0@ == x;
                assert(list@[i]@ == x);
            }
        }
    }
    r
}

/// Compute the bound and store it on the program in order, so that later runs (and
/// anything that inspects the facts) see the same set. Nothing else changes.
pub fn install(prog: &mut Program, bound: &Bound)
    ensures
        installed(*final(prog), *old(prog), *bound),
{
    let list = syntactic(prog, bound);
    let paths = as_relation(&list);
    prog.paths = paths;
}

} // verus!
