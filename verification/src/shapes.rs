//! What the small operations give: paths and instances, numbers and text, the store, and
//! the counting of memory.
use vstd::prelude::*;

use crate::access_path::{
    AccessPath, Accessor, Base, Constraint, CritId, Inclusion, Instance, Path, PtVal, Root, Step,
    Suffix, Value,
};
use crate::analysis::HybridAnalysis;
use crate::ctadl::{import_dir, store_root, Pass, Preprocess};
use crate::families::edb_size;
use crate::ir::{ArgIdx, Const, Field, Name, Program, Stmt};
use crate::mem::{
    self, idb_relations, idb_tuples, measure, named, payload_of, Block, Counting, Tally, Usage,
};
use crate::text::{decimal, digit, number, signed};

verus! {

// ---------------------------------------------------------------------------
// Instances
// ---------------------------------------------------------------------------

/// An instance keeps its statement; crossing a callsite puts the callsite at the end of
/// its call string, and nesting puts the statement and the call string of the outer one
/// there.
pub proof fn law_call_strings(
    id: &CritId,
    outer: &CritId,
    site: &Stmt,
    pushed: CritId,
    nested: CritId,
    depth: usize,
    both: usize,
)
    requires
        call_ensures(CritId::push, (id, site), pushed),
        call_ensures(CritId::nest, (id, outer), nested),
        call_ensures(CritId::depth, (id,), depth),
        call_ensures(CritId::nest_depth, (id, outer), both),
    ensures
        pushed@ == (Instance { stmt: id@.stmt, chain: id@.chain.push(site@) }),
        nested@ == (Instance {
            stmt: id@.stmt,
            chain: id@.chain + seq![outer@.stmt] + outer@.chain,
        }),
        depth == id@.chain.len(),
        both == id@.chain.len() + 1 + outer@.chain.len(),
{
    assert(id@.chain + seq![outer@.stmt] + outer@.chain =~= id@.nest(outer@).chain);
}

/// An instance that originates has an empty call string.
pub proof fn law_origins<S: Into<Stmt>>(s: S, r: CritId)
    requires
        call_ensures(CritId::origin::<S>, (s,), r),
    ensures
        call_ensures(S::into, (s,), r.stmt),
        r@.stmt == r.stmt@,
        r@.chain.len() == 0,
{
}

/// How an instance is shown: its statement, an at sign before the first callsite and a dot
/// before each later one, in angle brackets.
pub proof fn law_instances_are_shown(id: Instance, site: Name, r: String, c: &CritId)
    requires
        call_ensures(CritId::to_string, (c,), r),
    ensures
        c@ == id ==> r@ == id.show(),
        id.chain.len() == 0 ==> id.show() =~= "\u{27e8}"@ + id.stmt + "\u{27e9}"@,
        crate::access_path::show_chain(id.chain.push(site)) == crate::access_path::show_chain(
            id.chain,
        ) + (if id.chain.len() == 0 {
            "@"@
        } else {
            "\u{b7}"@
        }) + site,
        id.show() == "\u{27e8}"@ + id.stmt + crate::access_path::show_chain(id.chain)
            + "\u{27e9}"@,
{
    assert(id.chain.push(site).drop_last() =~= id.chain);
}

// ---------------------------------------------------------------------------
// Paths
// ---------------------------------------------------------------------------

/// A root is symbolic unless it is a local, and belongs to an instance where it is a slot
/// or a result of one.
pub proof fn law_kinds_of_roots(b: &Base, symbolic: bool, id: Option<&CritId>)
    requires
        call_ensures(Base::is_symbolic, (b,), symbolic),
        call_ensures(Base::crit_id, (b,), id),
    ensures
        symbolic <==> !(b@ is Var),
        match b@ {
            Root::Slot(x, i) => id is Some && id->0@ == x,
            Root::Res(x) => id is Some && id->0@ == x,
            _ => id is None,
        },
{
}

/// Taking a path apart and putting it together: each operation keeps the root or the
/// accessors and replaces the other.
pub proof fn law_paths_are_built(
    w: &AccessPath,
    base: Base,
    suffix: &Suffix,
    rebased: AccessPath,
    tail: Suffix,
    swapped: AccessPath,
    unknown: AccessPath,
    bare: bool,
    fresh: AccessPath,
)
    requires
        call_ensures(AccessPath::rebase, (w, base), rebased),
        call_ensures(AccessPath::suffix, (w,), tail),
        call_ensures(AccessPath::with_suffix, (w, suffix), swapped),
        call_ensures(AccessPath::index_unknown, (w,), unknown),
        call_ensures(AccessPath::is_base, (w,), bare),
        call_ensures(AccessPath::new, (base,), fresh),
    ensures
        rebased@ == (Path { root: base@, steps: w@.steps }),
        tail@ == w@.steps,
        swapped@ == (Path { root: w@.root, steps: suffix@ }),
        unknown@ == (Path { root: w@.root, steps: w@.steps.push(Step::Unknown) }),
        bare <==> w@.steps.len() == 0,
        fresh@ == (Path { root: base@, steps: Seq::empty() }),
{
}

/// A field or an index is put behind the accessors that are there.
pub proof fn law_accessors_are_appended<F: Into<Field>, C: Into<Const>>(
    w: &AccessPath,
    f: F,
    c: C,
    field: AccessPath,
    index: AccessPath,
)
    requires
        call_ensures(AccessPath::field::<F>, (w, f), field),
        call_ensures(AccessPath::index::<C>, (w, c), index),
    ensures
        exists|x: Field| #[trigger]
            call_ensures(F::into, (f,), x) && field@ == (Path {
                root: w@.root,
                steps: w@.steps.push(Step::Field(x@)),
            }),
        exists|x: Const| #[trigger]
            call_ensures(C::into, (c,), x) && index@ == (Path {
                root: w@.root,
                steps: w@.steps.push(Step::Index(x@)),
            }),
{
    let x = choose|x: Field| #[trigger]
        call_ensures(F::into, (f,), x) && field@ == w@.then_step(Step::Field(x@));
    assert(call_ensures(F::into, (f,), x));
    let y = choose|y: Const| #[trigger]
        call_ensures(C::into, (c,), y) && index@ == w@.then_step(Step::Index(y@));
    assert(call_ensures(C::into, (c,), y));
}

/// Stripping a prefix gives what follows it, exactly where the root is the same and the
/// accessors begin with the prefix's.
pub proof fn law_prefixes_are_stripped(w: &AccessPath, prefix: &AccessPath, r: Option<&[Accessor]>)
    requires
        call_ensures(AccessPath::strip_prefix, (w, prefix), r),
    ensures
        r is Some <==> w@.root == prefix@.root && prefix@.steps.len() <= w@.steps.len()
            && w@.steps.take(prefix@.steps.len() as int) == prefix@.steps,
        r matches Some(rest) ==> w@.steps == prefix@.steps + crate::access_path::steps(rest@),
{
    let n = prefix@.steps.len() as int;
    if let Some(rest) = r {
        assert(w@.steps.take(n) =~= prefix@.steps);
    }
    if prefix@.steps.len() <= w@.steps.len() {
        assert(w@.steps.take(n) =~= w@.steps.subrange(0, n));
    }
}

/// The placeholder paths of an instance are its bare slots and its bare result.
pub proof fn law_placeholder_paths(id: CritId, i: ArgIdx, slot: AccessPath, res: AccessPath)
    requires
        call_ensures(AccessPath::crit_slot, (id, i), slot),
        call_ensures(AccessPath::crit_ret, (id,), res),
    ensures
        slot@ == (Path { root: Root::Slot(id@, i), steps: Seq::empty() }),
        res@ == (Path { root: Root::Res(id@), steps: Seq::empty() }),
{
}

/// Suffixes: extending puts the rest behind, prepending one accessor before, and the
/// splits are every way to part a suffix before its end.
pub proof fn law_suffixes_are_built(
    s: &Suffix,
    rest: &[Accessor],
    a: &Accessor,
    longer: Suffix,
    before: Suffix,
    splits: Vec<(Suffix, Suffix)>,
    i: int,
)
    requires
        call_ensures(Suffix::extended, (s, rest), longer),
        call_ensures(Suffix::prepended, (s, a), before),
        call_ensures(Suffix::splits, (s,), splits),
    ensures
        longer@ == s@ + crate::access_path::steps(rest@),
        before@ == seq![a@] + s@,
        splits@.len() == s@.len(),
        0 <= i < s@.len() ==> splits@[i].0@ + splits@[i].1@ == s@ && splits@[i].0@.len() == i,
{
    if 0 <= i < s@.len() {
        let x = splits@[i];
        assert(s@.take(i) + s@.skip(i) =~= s@);
    }
}

/// How paths, values and constraints are shown.
pub proof fn law_paths_are_shown(w: Path, a: Step, p: Name, i: ArgIdx, id: Instance, c: Inclusion)
    ensures
        w.show() == w.root.show() + crate::access_path::show_steps(w.steps),
        crate::access_path::show_steps(w.steps.push(a)) == crate::access_path::show_steps(w.steps)
            + a.show(),
        crate::access_path::show_steps(Seq::empty()) == Seq::<char>::empty(),
        Step::Field(p).show() == "."@ + p,
        Step::Index(p).show() == "["@ + p + "]"@,
        Step::Unknown.show() == "[\u{3c0}]"@,
        Root::Var(p).show() == p,
        Root::Param(p, i).show() == "par_"@ + decimal(i as nat) + "@"@ + p,
        Root::Ret(p).show() == "ret@"@ + p,
        Root::Slot(id, i).show() == id.show() + ":arg"@ + decimal(i as nat),
        Root::Res(id).show() == id.show() + ":res"@,
        Value::Path(w).show() == w.show(),
        Value::Alloc(p).show() == "{"@ + p + "}"@,
        Value::Const(p).show() == "{"@ + p + "}"@,
        c.show() == c.sup.show() + " \u{2287} "@ + c.sub.show(),
        crate::access_path::show_suffix(w.steps) == (if w.steps.len() == 0 {
            "\u{3b5}"@
        } else {
            crate::access_path::show_steps(w.steps)
        }),
{
    assert(w.steps.push(a).drop_last() =~= w.steps);
}

/// A value constrains a path to contain it.
pub proof fn law_values_constrain(v: &PtVal, sup: AccessPath, r: Constraint, is_path: bool)
    requires
        call_ensures(PtVal::constrain, (v, sup), r),
        call_ensures(PtVal::is_path, (v,), is_path),
    ensures
        r@.sup == sup@ && r@.sub == v@,
        is_path <==> v@ is Path,
{
}

// ---------------------------------------------------------------------------
// Numbers
// ---------------------------------------------------------------------------

/// What a digit counts.
pub open spec fn worth(c: char) -> int {
    c as int - '0' as int
}

/// What digits count together.
pub open spec fn value_of(s: Seq<char>) -> int
    decreases s.len(),
{
    if s.len() == 0 {
        0
    } else {
        10 * value_of(s.drop_last()) + worth(s.last())
    }
}

proof fn lemma_digit(d: nat)
    requires
        d < 10,
    ensures
        digit(d).len() == 1,
        worth(digit(d)[0]) == d,
{
    reveal_strlit("0");
    reveal_strlit("1");
    reveal_strlit("2");
    reveal_strlit("3");
    reveal_strlit("4");
    reveal_strlit("5");
    reveal_strlit("6");
    reveal_strlit("7");
    reveal_strlit("8");
    reveal_strlit("9");
}

proof fn lemma_decimal(n: nat)
    ensures
        value_of(decimal(n)) == n,
        forall|i: int| 0 <= i < decimal(n).len() ==> 0 <= worth(#[trigger] decimal(n)[i]) < 10,
        decimal(n).len() > 0,
        n > 0 ==> worth(decimal(n)[0]) > 0,
        n == 0 ==> decimal(n).len() == 1,
    decreases n,
{
    let s = decimal(n);
    lemma_digit(n % 10);
    if n < 10 {
        lemma_digit(n);
        assert(s.drop_last() =~= Seq::<char>::empty());
        assert(value_of(s.drop_last()) == 0);
    } else {
        lemma_decimal(n / 10);
        let t = decimal(n / 10);
        assert(s.drop_last() =~= t);
        assert(s.last() == digit(n % 10)[0]);
        assert forall|i: int| 0 <= i < s.len() implies 0 <= worth(#[trigger] s[i]) < 10 by {
            if i < t.len() {
                assert(s[i] == t[i]);
            }
        }
        assert(s[0] == t[0]);
        assert(n == 10 * (n / 10) + n % 10);
    }
}

/// A number is written in digits that count what it is, without a leading zero; a negative
/// one has a sign before it.
pub proof fn law_numbers_are_written(n: usize, m: i64, r: String, s: String)
    requires
        call_ensures(number, (n,), r),
        call_ensures(signed, (m,), s),
    ensures
        value_of(r@) == n,
        forall|i: int| 0 <= i < r@.len() ==> 0 <= worth(#[trigger] r@[i]) < 10,
        r@.len() > 0,
        n > 0 ==> worth(r@[0]) > 0,
        n == 0 ==> r@.len() == 1,
        m >= 0 ==> s@ == decimal(m as nat),
        m < 0 ==> s@ == "-"@ + decimal((-(m as int)) as nat),
{
    lemma_decimal(n as nat);
}

// ---------------------------------------------------------------------------
// The store
// ---------------------------------------------------------------------------

/// The store is `ctadl` in the state directory that is set, else in the usual one of the
/// home directory, else here; an import is a directory of its own below `imports`.
pub proof fn law_where_the_store_is(
    state: Option<String>,
    home: Option<String>,
    r: String,
    root: &str,
    name: &str,
    dir: String,
)
    requires
        call_ensures(store_root, (state, home), r),
        call_ensures(import_dir, (root, name), dir),
    ensures
        state matches Some(s) ==> (s@.len() > 0 && s@.last() != '/' ==> r@ == s@ + "/"@ + "ctadl"@),
        state matches Some(s) ==> (s@.len() == 0 || s@.last() == '/' ==> r@ == s@ + "ctadl"@),
        state is None ==> (home matches Some(h) ==> (h@.len() > 0 && h@.last() != '/' ==> r@ == h@
            + "/"@ + ".local/state"@ + "/"@ + "ctadl"@)),
        state is None && home is None ==> r@ == "."@ + "/"@ + "ctadl"@,
        root@.len() > 0 && root@.last() != '/' && !(name@.len() > 0 && name@[0] == '/') ==> dir@
            == root@ + "/"@ + "imports"@ + "/"@ + name@,
{
    reveal_strlit("ctadl");
    reveal_strlit(".local/state");
    reveal_strlit(".");
    reveal_strlit("imports");
    reveal_strlit("/");
    if let Some(h) = home {
        let x = h@ + "/"@ + ".local/state"@;
        assert(x.last() == 'e');
    }
    let y = root@ + "/"@ + "imports"@;
    assert(y.last() == 's');
}

/// The passes that are chosen run in one order: temporaries, coalescing, single
/// assignment, copies.
pub proof fn law_passes_run_in_order(p: &Preprocess, r: Vec<Pass>)
    requires
        call_ensures(Preprocess::plan, (p,), r),
    ensures
        r@.contains(Pass::DeadTemps) <==> p.dead_temps,
        r@.contains(Pass::Coalesce) <==> p.coalesce,
        r@.contains(Pass::Ssa) <==> p.ssa,
        r@.contains(Pass::CopyProp) <==> p.copy_prop,
        forall|i: int, j: int| 0 <= i < j < r@.len()
            ==> turn(#[trigger] r@[i]) < turn(#[trigger] r@[j]),
{
    let a: Seq<Pass> = if p.dead_temps {
        seq![Pass::DeadTemps]
    } else {
        seq![]
    };
    let b: Seq<Pass> = if p.coalesce {
        seq![Pass::Coalesce]
    } else {
        seq![]
    };
    let c: Seq<Pass> = if p.ssa {
        seq![Pass::Ssa]
    } else {
        seq![]
    };
    let d: Seq<Pass> = if p.copy_prop {
        seq![Pass::CopyProp]
    } else {
        seq![]
    };
    assert(r@ == a + b + c + d);
    if p.dead_temps {
        assert(r@[0] == Pass::DeadTemps);
    }
    if p.coalesce {
        assert(r@[a.len() as int] == Pass::Coalesce);
    }
    if p.ssa {
        assert(r@[(a + b).len() as int] == Pass::Ssa);
    }
    if p.copy_prop {
        assert(r@[(a + b + c).len() as int] == Pass::CopyProp);
    }
}

/// When a pass has its turn.
pub open spec fn turn(p: Pass) -> int {
    match p {
        Pass::DeadTemps => 0,
        Pass::Coalesce => 1,
        Pass::Ssa => 2,
        Pass::CopyProp => 3,
    }
}

// ---------------------------------------------------------------------------
// Counting
// ---------------------------------------------------------------------------

/// An allocation adds to what is live and to what was ever handed out, counts as one, and
/// lifts the high-water mark to what is live where that is higher; a release takes from
/// what is live and changes nothing else.
pub proof fn law_allocations_are_counted(c: Counting, size: usize)
    requires
        c.live + size <= usize::MAX,
        c.allocated + size <= usize::MAX,
        c.allocs < usize::MAX,
    ensures
        c.after_alloc(size).live == c.live + size,
        c.after_alloc(size).allocated == c.allocated + size,
        c.after_alloc(size).allocs == c.allocs + 1,
        c.after_alloc(size).peak >= c.peak && c.after_alloc(size).peak >= c.live + size,
        c.after_alloc(size).peak == c.peak || c.after_alloc(size).peak == c.live + size,
        size <= c.live ==> c.after_free(size).live == c.live - size,
        c.after_free(size).peak == c.peak,
        c.after_free(size).allocs == c.allocs,
        c.after_free(size).allocated == c.allocated,
{
}

/// The cost of a piece of work: what is live beyond where it started, the high-water mark
/// beyond that, and the allocations in between.
pub proof fn law_work_is_measured(start: &Counting, end: &Counting, r: Usage)
    requires
        call_ensures(measure, (start, end), r),
    ensures
        end.live >= start.live ==> r.retained == end.live - start.live,
        end.live < start.live ==> r.retained == 0,
        end.peak >= start.live ==> r.peak == end.peak - start.live,
        end.peak < start.live ==> r.peak == 0,
        r.allocs == end.allocs - start.allocs,
{
}

/// Block `i` is charged: its address is neither in `before` nor earlier in `after`.
pub open spec fn charged(before: Seq<Block>, after: Seq<Block>, i: int) -> bool {
    &&& forall|j: int| 0 <= j < before.len() ==> (#[trigger] before[j]).address != after[i].address
    &&& forall|j: int| 0 <= j < i ==> (#[trigger] after[j]).address != after[i].address
}

/// What the charged ones of the first `n` blocks cost: their bytes and two words each.
pub open spec fn charges(before: Seq<Block>, after: Seq<Block>, n: int) -> nat
    decreases n,
{
    if n <= 0 {
        0
    } else {
        charges(before, after, n - 1) + (if charged(before, after, n - 1) {
            (2 * (usize::BITS as nat / 8) + after[n - 1].bytes) as nat
        } else {
            0
        })
    }
}

proof fn lemma_seen(t: Tally, v: Seq<Block>, a: usize)
    ensures
        t.count_all(v).seen.contains(a) <==> t.seen.contains(a) || exists|j: int|
            0 <= j < v.len() && (#[trigger] v[j]).address == a,
    decreases v.len(),
{
    if v.len() > 0 {
        let few = v.drop_last();
        lemma_seen(t, few, a);
        if exists|j: int| 0 <= j < few.len() && (#[trigger] few[j]).address == a {
            let j = choose|j: int| 0 <= j < few.len() && (#[trigger] few[j]).address == a;
            assert(v[j].address == a);
        }
        if exists|j: int| 0 <= j < v.len() && (#[trigger] v[j]).address == a {
            let j = choose|j: int| 0 <= j < v.len() && (#[trigger] v[j]).address == a;
            if j < few.len() {
                assert(few[j].address == a);
            }
        }
        if v.last().address == a {
            assert(v[v.len() - 1].address == a);
        }
    }
}

proof fn lemma_charges(before: Seq<Block>, after: Seq<Block>, n: int)
    requires
        0 <= n <= after.len(),
    ensures
        Tally::fresh().count_all(before).restarted().count_all(after.take(n)).bytes == charges(
            before,
            after,
            n,
        ),
    decreases n,
{
    let t = Tally::fresh().count_all(before).restarted();
    if n > 0 {
        lemma_charges(before, after, n - 1);
        let (few, all) = (after.take(n - 1), after.take(n));
        assert(all.drop_last() =~= few);
        let a = after[n - 1].address;
        assert(all.last() == after[n - 1]);
        lemma_seen(t, few, a);
        lemma_seen(Tally::fresh(), before, a);
        assert(t.count_all(few).seen.contains(a) <==> !charged(before, after, n - 1)) by {
            if exists|j: int| 0 <= j < few.len() && (#[trigger] few[j]).address == a {
                let j = choose|j: int| 0 <= j < few.len() && (#[trigger] few[j]).address == a;
                assert(after[j].address == a);
            }
            if !charged(before, after, n - 1) {
                if exists|j: int| 0 <= j < before.len() && (#[trigger] before[j]).address == a {
                    let j = choose|j: int|
                        0 <= j < before.len() && (#[trigger] before[j]).address == a;
                    assert(before[j].address == a);
                } else {
                    let j = choose|j: int| 0 <= j < n - 1 && (#[trigger] after[j]).address == a;
                    assert(few[j].address == a);
                }
            }
        }
    } else {
        assert(after.take(n).len() == 0);
    }
}

/// The payload of what was derived: every allocation once, however many tuples share it,
/// and none that the facts hold already.
pub proof fn law_payload_is_charged_once(before: &Vec<Block>, after: &Vec<Block>, r: usize)
    requires
        call_ensures(payload_of, (before, after), r),
    ensures
        r == charges(before@, after@, after@.len() as int),
{
    lemma_charges(before@, after@, after@.len() as int);
    assert(after@.take(after@.len() as int) =~= after@);
}

/// The census of an analysis names every relation with the number of its tuples, the
/// published constraints among them.
pub proof fn law_relations_are_counted(
    h: &HybridAnalysis,
    edges: Vec<(crate::ir::Proc, AccessPath, AccessPath)>,
    r: Vec<(&'static str, usize)>,
)
    requires
        call_ensures(HybridAnalysis::pub_edges, (h,), edges),
        call_ensures(idb_relations, (h,), r),
    ensures
        named(r@) == seq![
            ("sig_target"@, h.sig_target@.len()),
            ("sig_size"@, h.sig_size@.len()),
            ("mono_target"@, h.mono_target@.len()),
            ("eff_direct"@, h.eff_direct@.len()),
            ("critical"@, h.critical@.len()),
            ("known_proc"@, h.known_proc@.len()),
            ("is_called"@, h.is_called@.len()),
            ("uncalled"@, h.uncalled@.len()),
            ("edge"@, h.edge@.len()),
            ("points"@, h.points@.len()),
            ("path_used"@, h.path_used@.len()),
            ("crit_origin"@, h.crit_origin@.len()),
            ("pending"@, h.pending@.len()),
            ("can_propagate"@, h.can_propagate@.len()),
            ("carries"@, h.carries@.len()),
            ("decisive_var"@, h.decisive_var@.len()),
            ("slot_from_formal"@, h.slot_from_formal@.len()),
            ("will_propagate"@, h.will_propagate@.len()),
            ("stuck"@, h.stuck@.len()),
            ("crit_operand"@, h.crit_operand@.len()),
            ("call_crit"@, h.call_crit@.len()),
            ("load_crit"@, h.load_crit@.len()),
            ("store_crit"@, h.store_crit@.len()),
            ("index_crit"@, h.index_crit@.len()),
            ("decisive_slot"@, h.decisive_slot@.len()),
            ("crit_sig"@, h.crit_sig@.len()),
            ("free_root"@, h.free_root@.len()),
            ("pub_root"@, h.pub_root@.len()),
            ("pub_edge"@, edges@.len()),
            ("pub_points"@, h.pub_points@.len()),
            ("root_map"@, h.root_map@.len()),
            ("blocked"@, h.blocked@.len()),
            ("top"@, h.top@.len()),
            ("resolve"@, h.resolve@.len()),
            ("index_undecidable"@, h.index_undecidable@.len()),
            ("index_acc"@, h.index_acc@.len()),
            ("adequate"@, h.adequate@.len()),
            ("settled"@, h.settled@.len()),
        ],
{
}

/// A total is the sum of the numbers.
pub proof fn law_totals_are_sums(
    h: &HybridAnalysis,
    sizes: Seq<(Seq<char>, nat)>,
    x: (Seq<char>, nat),
    r: usize,
)
    requires
        call_ensures(idb_tuples, (h,), r),
    ensures
        r == mem::total(mem::relation_sizes(h)),
        mem::total(Seq::empty()) == 0,
        mem::total(sizes.push(x)) == mem::total(sizes) + x.1,
{
    assert(sizes.push(x).drop_last() =~= sizes);
}

/// The size of a program is the number of the facts that make it up.
pub proof fn law_programs_are_sized(prog: &Program, r: usize)
    requires
        call_ensures(edb_size, (prog,), r),
    ensures
        r == prog.procedure@.len() + prog.in_proc@.len() + prog.alloc@.len() + prog.mov@.len()
            + prog.load_field@.len() + prog.store_field@.len() + prog.direct_call@.len()
            + prog.virtual_call@.len() + prog.actual_arg@.len() + prog.bind_ret@.len()
            + prog.formal@.len() + prog.ret@.len() + prog.lookup@.len(),
{
}

} // verus!
