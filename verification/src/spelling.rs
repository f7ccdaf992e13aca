//! Which suffixes a program's syntax spells, chain by chain.
use vstd::prelude::*;

use crate::access_path::{Step, Suffix};
use crate::ir::{Line, Name, Proc, Program, Stmt};
use crate::path_bound::{
    self, clear, defines, folded, for_program, hangs, link, place, reaches, spelled, syntactic,
    under, Bound,
};
use crate::tuples::tuples;

verus! {

/// The last place that the list names for the statement.
pub open spec fn stands_last(v: Seq<(Stmt, Proc, Line)>, s: Name, p: Name, l: Line) -> bool {
    exists|i: int|
        0 <= i < v.len() && (#[trigger] v[i])@ == (s, p, l) && forall|j: int|
            i < j < v.len() ==> (#[trigger] v[j]).0@ != s
}

/// One statement's link: what hangs off `src` hangs off `dst`, behind the accessor if there
/// is one.
pub struct Hop {
    pub line: Line,
    pub src: Name,
    pub dst: Name,
    pub acc: Option<Step>,
}

/// The statement reads or writes `dst` through a variable index, into or out of `src`.
pub open spec fn through_index(prog: Program, s: Name, src: Name, dst: Name) -> bool {
    ||| exists|i: Name| prog@.load_index_var.contains((s, src, dst, i))
    ||| exists|i: Name| prog@.store_index_var.contains((s, dst, i, src))
}

/// The program assigns the constant, or indexes by it.
pub open spec fn mentioned(prog: Program, c: Name) -> bool {
    ||| exists|s: Name, v: Name| prog@.const_assign.contains((s, v, c))
    ||| exists|s: Name, to: Name, base: Name| prog@.load_index_const.contains((s, to, base, c))
    ||| exists|s: Name, base: Name, from: Name|
        prog@.store_index_const.contains((s, base, c, from))
}

/// A statement of the procedure, on the line of the hop, makes it: a move without an
/// accessor, a load or a store with its own, and an access through a variable index with
/// any constant that the program mentions, or with the unknown one.
pub open spec fn hop(prog: Program, p: Name, h: Hop) -> bool {
    exists|s: Name| #[trigger]
        stands_last(prog.in_proc@, s, p, h.line) && match h.acc {
            None => prog@.mov.contains((s, h.src, h.dst)),
            Some(Step::Field(f)) => {
                ||| prog@.load_field.contains((s, h.src, h.dst, f))
                ||| prog@.store_field.contains((s, h.dst, f, h.src))
            },
            Some(Step::Index(c)) => {
                ||| prog@.load_index_const.contains((s, h.src, h.dst, c))
                ||| prog@.store_index_const.contains((s, h.dst, c, h.src))
                ||| mentioned(prog, c) && through_index(prog, s, h.src, h.dst)
            },
            Some(Step::Unknown) => through_index(prog, s, h.src, h.dst),
        }
}

/// A statement on the line gives the variable another value.
pub open spec fn overwritten(prog: Program, p: Name, l: Line, v: Name) -> bool {
    exists|s: Name| #[trigger]
        stands_last(prog.in_proc@, s, p, l) && {
            ||| exists|x: Name| prog@.mov.contains((s, v, x))
            ||| exists|x: Name| prog@.alloc.contains((s, v, x))
            ||| exists|x: Name| prog@.const_assign.contains((s, v, x))
            ||| exists|x: Name, y: Name| prog@.load_field.contains((s, v, x, y))
            ||| exists|x: Name, y: Name| prog@.load_static.contains((s, v, x, y))
            ||| exists|x: Name, y: Name| prog@.load_index_const.contains((s, v, x, y))
            ||| exists|x: Name, y: Name| prog@.load_index_var.contains((s, v, x, y))
            ||| prog@.bind_ret.contains((s, v))
        }
}

/// The later hop hangs its suffix off the variable that the earlier one takes it from, and
/// nothing gives the variable another value between the two.
pub open spec fn joined(prog: Program, p: Name, a: Hop, b: Hop) -> bool {
    &&& a.line < b.line
    &&& a.src == b.dst
    &&& forall|n: Line| a.line < n < b.line ==> !#[trigger] overwritten(prog, p, n, a.src)
}

/// Hops of one procedure, each joined to the next, down to an accessor.
pub open spec fn chained(prog: Program, p: Name, ch: Seq<Hop>) -> bool {
    &&& ch.len() > 0
    &&& forall|i: int| 0 <= i < ch.len() ==> hop(prog, p, #[trigger] ch[i])
    &&& forall|i: int| 0 <= i < ch.len() - 1 ==> joined(prog, p, #[trigger] ch[i], ch[i + 1])
    &&& ch.last().acc is Some
}

/// The accessors of the hops, in their order.
pub open spec fn accessors(ch: Seq<Hop>) -> Seq<Step>
    decreases ch.len(),
{
    if ch.len() == 0 {
        Seq::empty()
    } else {
        (match ch[0].acc {
            Some(a) => seq![a],
            None => Seq::empty(),
        }) + accessors(ch.drop_first())
    }
}

proof fn lemma_place(v: Seq<(Stmt, Proc, Line)>, s: Name, p: Name, l: Line)
    ensures
        place(v, s) == Some((p, l)) <==> stands_last(v, s, p, l),
    decreases v.len(),
{
    if v.len() > 0 {
        let few = v.drop_last();
        lemma_place(few, s, p, l);
        let n = v.len() - 1;
        assert(v[n] == v.last());
        if v.last().0@ == s {
            if place(v, s) == Some((p, l)) {
                assert(v[n]@ == (s, p, l));
            }
            if stands_last(v, s, p, l) {
                let i = choose|i: int|
                    0 <= i < v.len() && (#[trigger] v[i])@ == (s, p, l) && forall|j: int|
                        i < j < v.len() ==> (#[trigger] v[j]).0@ != s;
                if i < n {
                    assert(v[n].0@ != s);
                }
            }
        } else {
            if stands_last(few, s, p, l) {
                let i = choose|i: int|
                    0 <= i < few.len() && (#[trigger] few[i])@ == (s, p, l) && forall|j: int|
                        i < j < few.len() ==> (#[trigger] few[j]).0@ != s;
                assert(v[i] == few[i]);
                assert forall|j: int| i < j < v.len() implies (#[trigger] v[j]).0@ != s by {
                    if j < n {
                        assert(few[j].0@ != s);
                    }
                }
            }
            if stands_last(v, s, p, l) {
                let i = choose|i: int|
                    0 <= i < v.len() && (#[trigger] v[i])@ == (s, p, l) && forall|j: int|
                        i < j < v.len() ==> (#[trigger] v[j]).0@ != s;
                assert(i < n);
                assert(few[i]@ == (s, p, l));
                assert forall|j: int| i < j < few.len() implies (#[trigger] few[j]).0@ != s by {
                    assert(v[j].0@ != s);
                }
            }
        }
    }
}

proof fn lemma_hop(prog: Program, p: Name, h: Hop)
    ensures
        hop(prog, p, h) <==> link(prog, p, h.line, h.src, h.dst, h.acc),
{
    let v = prog.in_proc@;
    assert forall|s: Name| #[trigger] stands_last(v, s, p, h.line) <==> place(v, s) == Some(
        (p, h.line),
    ) by {
        lemma_place(v, s, p, h.line);
    }
    if hop(prog, p, h) {
        let s = choose|s: Name| #[trigger]
            stands_last(prog.in_proc@, s, p, h.line) && match h.acc {
                None => prog@.mov.contains((s, h.src, h.dst)),
                Some(Step::Field(f)) => {
                    ||| prog@.load_field.contains((s, h.src, h.dst, f))
                    ||| prog@.store_field.contains((s, h.dst, f, h.src))
                },
                Some(Step::Index(c)) => {
                    ||| prog@.load_index_const.contains((s, h.src, h.dst, c))
                    ||| prog@.store_index_const.contains((s, h.dst, c, h.src))
                    ||| mentioned(prog, c) && through_index(prog, s, h.src, h.dst)
                },
                Some(Step::Unknown) => through_index(prog, s, h.src, h.dst),
            };
        assert(place(v, s) == Some((p, h.line)));
        assert(path_bound::stmt_link(prog@, s, h.src, h.dst, h.acc));
    }
    if link(prog, p, h.line, h.src, h.dst, h.acc) {
        let s = choose|s: Name| #[trigger]
            place(prog.in_proc@, s) == Some((p, h.line)) && path_bound::stmt_link(
                prog@,
                s,
                h.src,
                h.dst,
                h.acc,
            );
        assert(stands_last(v, s, p, h.line));
    }
}

proof fn lemma_overwritten(prog: Program, p: Name, l: Line, x: Name)
    ensures
        overwritten(prog, p, l, x) <==> defines(prog, p, l, x),
{
    let v = prog.in_proc@;
    assert forall|s: Name| #[trigger] stands_last(v, s, p, l) <==> place(v, s) == Some((p, l)) by {
        lemma_place(v, s, p, l);
    }
    if defines(prog, p, l, x) {
        let s = choose|s: Name| #[trigger]
            place(prog.in_proc@, s) == Some((p, l)) && path_bound::stmt_defines(prog@, s, x);
        assert(stands_last(v, s, p, l));
    }
    if overwritten(prog, p, l, x) {
        let s = choose|s: Name| #[trigger]
            stands_last(prog.in_proc@, s, p, l) && {
                ||| exists|y: Name| prog@.mov.contains((s, x, y))
                ||| exists|y: Name| prog@.alloc.contains((s, x, y))
                ||| exists|y: Name| prog@.const_assign.contains((s, x, y))
                ||| exists|y: Name, z: Name| prog@.load_field.contains((s, x, y, z))
                ||| exists|y: Name, z: Name| prog@.load_static.contains((s, x, y, z))
                ||| exists|y: Name, z: Name| prog@.load_index_const.contains((s, x, y, z))
                ||| exists|y: Name, z: Name| prog@.load_index_var.contains((s, x, y, z))
                ||| prog@.bind_ret.contains((s, x))
            };
        assert(place(v, s) == Some((p, l)));
        assert(path_bound::stmt_defines(prog@, s, x));
    }
}

proof fn lemma_clear(prog: Program, p: Name, v: Name, l: Line, m: Line)
    ensures
        clear(prog, p, v, l, m) <==> forall|n: Line|
            l < n < m ==> !#[trigger] overwritten(prog, p, n, v),
{
    assert forall|n: Line| #[trigger] overwritten(prog, p, n, v) <==> defines(prog, p, n, v) by {
        lemma_overwritten(prog, p, n, v);
    }
    if forall|n: Line| l < n < m ==> !#[trigger] overwritten(prog, p, n, v) {
        assert forall|n: Line| l < n < m implies !#[trigger] defines(prog, p, n, v) by {
            assert(!overwritten(prog, p, n, v));
        }
    }
    if clear(prog, p, v, l, m) {
        assert forall|n: Line| l < n < m implies !#[trigger] overwritten(prog, p, n, v) by {
            assert(!defines(prog, p, n, v));
        }
    }
}

/// A chain one hop longer at the front.
proof fn lemma_longer(prog: Program, p: Name, h: Hop, ch: Seq<Hop>)
    requires
        hop(prog, p, h),
        chained(prog, p, ch),
        joined(prog, p, h, ch[0]),
    ensures
        chained(prog, p, seq![h] + ch),
        accessors(seq![h] + ch) == (match h.acc {
            Some(a) => seq![a],
            None => Seq::empty(),
        }) + accessors(ch),
{
    let all = seq![h] + ch;
    assert(all.drop_first() =~= ch);
    assert forall|i: int| 0 <= i < all.len() implies hop(prog, p, #[trigger] all[i]) by {
        if i > 0 {
            assert(all[i] == ch[i - 1]);
        }
    }
    assert forall|i: int| 0 <= i < all.len() - 1 implies joined(
        prog,
        p,
        #[trigger] all[i],
        all[i + 1],
    ) by {
        if i > 0 {
            assert(all[i] == ch[i - 1] && all[i + 1] == ch[i]);
            assert(joined(prog, p, ch[i - 1], ch[i - 1 + 1]));
        }
    }
}

proof fn lemma_hangs_by_chain(
    prog: Program,
    max: Option<usize>,
    p: Name,
    v: Name,
    rho: Seq<Step>,
    l: Line,
) -> (ch: Seq<Hop>)
    requires
        hangs(prog, max, p, v, rho, l),
    ensures
        chained(prog, p, ch),
        ch[0].dst == v && ch[0].line == l,
        accessors(ch) == rho,
        under(max, rho.len()),
    decreases usize::MAX - l,
{
    let (src, acc) = choose|src: Name, acc: Option<Step>| #[trigger]
        link(prog, p, l, src, v, acc) && match acc {
            None => reaches(prog, max, p, src, rho, l),
            Some(a) => {
                &&& rho[0] == a
                &&& under(max, rho.len())
                &&& rho.len() == 1 || reaches(prog, max, p, src, rho.drop_first(), l)
            },
        };
    let h = Hop { line: l, src, dst: v, acc };
    lemma_hop(prog, p, h);
    if acc is Some && rho.len() == 1 {
        let ch = seq![h];
        assert(ch.drop_first() =~= Seq::<Hop>::empty());
        assert(accessors(ch.drop_first()) =~= Seq::<Step>::empty());
        assert(accessors(ch) =~= rho);
        ch
    } else {
        let rest = match acc {
            None => rho,
            Some(a) => rho.drop_first(),
        };
        let m = choose|m: Line|
            l < m && hangs(prog, max, p, src, rest, m) && #[trigger] clear(prog, p, src, l, m);
        let few = lemma_hangs_by_chain(prog, max, p, src, rest, m);
        lemma_clear(prog, p, src, l, m);
        lemma_longer(prog, p, h, few);
        assert(accessors(seq![h] + few) =~= rho);
        seq![h] + few
    }
}

proof fn lemma_chain_hangs(prog: Program, max: Option<usize>, p: Name, ch: Seq<Hop>)
    requires
        chained(prog, p, ch),
        under(max, accessors(ch).len()),
    ensures
        hangs(prog, max, p, ch[0].dst, accessors(ch), ch[0].line),
        accessors(ch).len() > 0,
    decreases ch.len(),
{
    let h = ch[0];
    let rho = accessors(ch);
    lemma_hop(prog, p, h);
    let few = ch.drop_first();
    if ch.len() == 1 {
        assert(few.len() == 0);
        assert(rho =~= seq![h.acc->0]);
        assert(link(prog, p, h.line, h.src, h.dst, h.acc));
    } else {
        assert forall|i: int| 0 <= i < few.len() implies hop(prog, p, #[trigger] few[i]) by {
            assert(few[i] == ch[i + 1]);
        }
        assert forall|i: int| 0 <= i < few.len() - 1 implies joined(
            prog,
            p,
            #[trigger] few[i],
            few[i + 1],
        ) by {
            assert(joined(prog, p, ch[i + 1], ch[i + 1 + 1]));
        }
        assert(few.last() == ch.last());
        assert(accessors(few).len() <= rho.len());
        lemma_chain_hangs(prog, max, p, few);
        let b = few[0];
        assert(joined(prog, p, ch[0], ch[0int + 1]));
        lemma_clear(prog, p, h.src, h.line, b.line);
        assert(clear(prog, p, h.src, h.line, b.line));
        assert(reaches(prog, max, p, h.src, accessors(few), h.line));
        if h.acc is Some {
            assert(rho.drop_first() =~= accessors(few));
        } else {
            assert(rho =~= accessors(few));
        }
        assert(link(prog, p, h.line, h.src, h.dst, h.acc));
    }
}

/// The syntax spells a suffix exactly where a chain of statements of one procedure has its
/// accessors in order, and the suffix is no longer than the cap.
pub proof fn law_chains_spell_suffixes(prog: Program, max: Option<usize>, rho: Seq<Step>)
    requires
        rho.len() > 0,
    ensures
        spelled(prog, max).contains(rho) <==> (max matches Some(d) ==> rho.len() <= d) && exists|
            p: Name,
            ch: Seq<Hop>,
        |
            #[trigger] chained(prog, p, ch) && accessors(ch) == rho,
{
    if spelled(prog, max).contains(rho) {
        let (p, v, l) = choose|p: Name, v: Name, l: Line| hangs(prog, max, p, v, rho, l);
        let ch = lemma_hangs_by_chain(prog, max, p, v, rho, l);
        assert(chained(prog, p, ch));
    }
    if (max matches Some(d) ==> rho.len() <= d) && exists|p: Name, ch: Seq<Hop>|
        #[trigger] chained(prog, p, ch) && accessors(ch) == rho {
        let (p, ch) = choose|p: Name, ch: Seq<Hop>|
            #[trigger] chained(prog, p, ch) && accessors(ch) == rho;
        lemma_chain_hangs(prog, max, p, ch);
    }
}

/// One after the other.
pub open spec fn together(parts: Seq<Seq<Step>>) -> Seq<Step>
    decreases parts.len(),
{
    if parts.len() == 0 {
        Seq::empty()
    } else {
        together(parts.drop_last()) + parts.last()
    }
}

/// Nonempty suffixes that the syntax spells.
pub open spec fn factors(prog: Program, max: Option<usize>, parts: Seq<Seq<Step>>) -> bool {
    &&& parts.len() > 0
    &&& forall|i: int|
        0 <= i < parts.len() ==> (#[trigger] parts[i]).len() > 0 && spelled(prog, max).contains(
            parts[i],
        )
}

proof fn lemma_together(prog: Program, max: Option<usize>, parts: Seq<Seq<Step>>)
    requires
        factors(prog, max, parts),
    ensures
        together(parts).len() > 0,
{
    assert(parts[parts.len() - 1].len() > 0);
}

proof fn lemma_folded(prog: Program, max: Option<usize>, n: nat, rho: Seq<Step>)
    requires
        rho.len() > 0,
    ensures
        folded(spelled(prog, max), max, n).contains(rho) <==> exists|parts: Seq<Seq<Step>>|
            {
                &&& #[trigger] factors(prog, max, parts)
                &&& parts.len() <= 1 || parts.len() <= n
                &&& together(parts) == rho
                &&& parts.len() == 1 || under(max, rho.len())
            },
    decreases n,
{
    let base = spelled(prog, max);
    let set = folded(base, max, n);
    if n <= 1 {
        if base.contains(rho) {
            let parts = seq![rho];
            assert(parts.drop_last() =~= Seq::<Seq<Step>>::empty());
            assert(together(parts.drop_last()) =~= Seq::<Step>::empty());
            assert(together(parts) =~= rho);
            assert(factors(prog, max, parts));
        }
        if exists|parts: Seq<Seq<Step>>|
            {
                &&& #[trigger] factors(prog, max, parts)
                &&& parts.len() <= 1 || parts.len() <= n
                &&& together(parts) == rho
                &&& parts.len() == 1 || under(max, rho.len())
            } {
            let parts = choose|parts: Seq<Seq<Step>>|
                {
                    &&& #[trigger] factors(prog, max, parts)
                    &&& parts.len() <= 1 || parts.len() <= n
                    &&& together(parts) == rho
                    &&& parts.len() == 1 || under(max, rho.len())
                };
            assert(parts.len() == 1);
            assert(parts.drop_last() =~= Seq::<Seq<Step>>::empty());
            assert(together(parts.drop_last()) =~= Seq::<Step>::empty());
            assert(together(parts) =~= parts[0]);
        }
    } else {
        let shorter = folded(base, max, (n - 1) as nat);
        lemma_folded(prog, max, (n - 1) as nat, rho);
        if set.contains(rho) {
            if shorter.contains(rho) {
                let parts = choose|parts: Seq<Seq<Step>>|
                    {
                        &&& #[trigger] factors(prog, max, parts)
                        &&& parts.len() <= 1 || parts.len() <= n - 1
                        &&& together(parts) == rho
                        &&& parts.len() == 1 || under(max, rho.len())
                    };
                assert(factors(prog, max, parts));
            } else {
                let (a, b) = choose|a: Seq<Step>, b: Seq<Step>| #[trigger]
                    shorter.contains(a) && #[trigger] base.contains(b) && a.len() > 0 && b.len()
                        > 0 && rho == a + b && under(max, rho.len());
                lemma_folded(prog, max, (n - 1) as nat, a);
                let few = choose|few: Seq<Seq<Step>>|
                    {
                        &&& #[trigger] factors(prog, max, few)
                        &&& few.len() <= 1 || few.len() <= n - 1
                        &&& together(few) == a
                        &&& few.len() == 1 || under(max, a.len())
                    };
                let parts = few.push(b);
                assert(parts.drop_last() =~= few);
                assert forall|i: int| 0 <= i < parts.len() implies (#[trigger] parts[i]).len() > 0
                    && base.contains(parts[i]) by {
                    if i < few.len() {
                        assert(parts[i] == few[i]);
                    }
                }
                assert(factors(prog, max, parts));
                assert(together(parts) == rho);
            }
        }
        if exists|parts: Seq<Seq<Step>>|
            {
                &&& #[trigger] factors(prog, max, parts)
                &&& parts.len() <= 1 || parts.len() <= n
                &&& together(parts) == rho
                &&& parts.len() == 1 || under(max, rho.len())
            } {
            let parts = choose|parts: Seq<Seq<Step>>|
                {
                    &&& #[trigger] factors(prog, max, parts)
                    &&& parts.len() <= 1 || parts.len() <= n
                    &&& together(parts) == rho
                    &&& parts.len() == 1 || under(max, rho.len())
                };
            if parts.len() <= 1 || parts.len() <= n - 1 {
                assert(shorter.contains(rho));
            } else {
                let (few, b) = (parts.drop_last(), parts.last());
                let a = together(few);
                assert forall|i: int| 0 <= i < few.len() implies (#[trigger] few[i]).len() > 0
                    && base.contains(few[i]) by {
                    assert(few[i] == parts[i]);
                }
                assert(factors(prog, max, few));
                lemma_together(prog, max, few);
                lemma_folded(prog, max, (n - 1) as nat, a);
                assert(parts[parts.len() - 1] == b);
                assert(shorter.contains(a) && base.contains(b));
                assert(set.contains(rho));
            }
        }
    }
}

/// The bound of a program's syntax: the empty suffix, and every concatenation of at most as
/// many spelled suffixes as the fold allows that is no longer than the cap. A fold below
/// one allows one.
pub proof fn law_the_bound_of_the_syntax(
    prog: &Program,
    bound: &Bound,
    r: Vec<Suffix>,
    rho: Seq<Step>,
)
    requires
        call_ensures(syntactic, (prog, bound), r),
    ensures
        tuples(r@).contains(Seq::<Step>::empty()),
        rho.len() > 0 ==> (tuples(r@).contains(rho) <==> exists|parts: Seq<Seq<Step>>|
            {
                &&& #[trigger] factors(*prog, bound.max_depth, parts)
                &&& parts.len() <= 1 || parts.len() <= bound.fold
                &&& together(parts) == rho
                &&& parts.len() == 1 || (bound.max_depth matches Some(d) ==> rho.len() <= d)
            }),
{
    path_bound::law_empty_suffix_is_admitted(*prog, *bound);
    if rho.len() > 0 {
        lemma_folded(*prog, bound.max_depth, bound.fold as nat, rho);
    }
}

/// A program runs under its own vocabulary where it has one, and otherwise under the
/// suffixes that its chains spell, uncapped and unfolded.
pub proof fn law_the_bound_to_run_under(prog: &Program, r: Vec<Suffix>, rho: Seq<Step>)
    requires
        call_ensures(for_program, (prog,), r),
    ensures
        prog.paths@.len() > 0 ==> (tuples(r@).contains(rho) <==> exists|i: int|
            0 <= i < prog.paths@.len() && (#[trigger] prog.paths@[i]).0@ == rho),
        prog.paths@.len() == 0 ==> (tuples(r@).contains(rho) <==> rho.len() == 0 || exists|
            p: Name,
            ch: Seq<Hop>,
        |
            #[trigger] chained(*prog, p, ch) && accessors(ch) == rho),
{
    if prog.paths@.len() == 0 {
        let base = spelled(*prog, None);
        assert(folded(base, None, 1) == base);
        if rho.len() > 0 {
            law_chains_spell_suffixes(*prog, None, rho);
        } else {
            assert(base.contains(rho));
            assert forall|p: Name, ch: Seq<Hop>|
                #[trigger] chained(*prog, p, ch) implies accessors(ch) != rho by {
                lemma_chain_hangs(*prog, None, p, ch);
            }
        }
    } else {
        let v = prog.paths@;
        if exists|i: int| 0 <= i < v.len() && (#[trigger] v[i]).0@ == rho {
            let i = choose|i: int| 0 <= i < v.len() && (#[trigger] v[i]).0@ == rho;
            assert(v[i].0@ == rho);
        }
    }
}

} // verus!
