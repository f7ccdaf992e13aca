//! The order in which sets of values are listed.
//!
//! Every value has a *rank*, a sequence of numbers, and values are ordered as
//! their ranks are lexicographically. Text ranks by its characters, a sequence by
//! its elements with a proper prefix first, an enum by its variant and then by
//! its fields, a struct by its fields. No two values share a rank.
use vstd::prelude::*;

use crate::access_path::{
    names, steps, AccessPath, Accessor, Base, Constraint, CritId, Inclusion, Instance, Path, PtVal,
    Root, Step, Suffix, Value,
};
use crate::ir::{Name, Proc, Symbol};
use crate::table::Table;
use crate::tuples::tuples;

verus! {

// ---------------------------------------------------------------------------
// Lexicographic order
// ---------------------------------------------------------------------------

/// `a` and `b` agree before position `k`, and `a` is smaller there.
pub open spec fn parts_at(a: Seq<usize>, b: Seq<usize>, k: int) -> bool {
    &&& 0 <= k <= a.len()
    &&& k < b.len()
    &&& forall|i: int| 0 <= i < k ==> #[trigger] a[i] == b[i]
    &&& k == a.len() || a[k] < b[k]
}

/// `a` comes before `b`.
pub open spec fn before(a: Seq<usize>, b: Seq<usize>) -> bool {
    exists|k: int| parts_at(a, b, k)
}

/// Nothing comes before itself, and of two sequences not both come first.
pub proof fn lemma_before_asymmetric(a: Seq<usize>, b: Seq<usize>)
    requires
        before(a, b),
    ensures
        a != b,
        !before(b, a),
{
    let k = choose|k: int| parts_at(a, b, k);
    if before(b, a) {
        let j = choose|j: int| parts_at(b, a, j);
        if j < k {
            assert(a[j] == b[j]);
        } else if k < j {
            assert(b[k] == a[k]);
        }
    }
    if a == b {
        assert(k < a.len());
    }
}

pub proof fn lemma_before_transitive(a: Seq<usize>, b: Seq<usize>, c: Seq<usize>)
    requires
        before(a, b),
        before(b, c),
    ensures
        before(a, c),
{
    let k = choose|k: int| parts_at(a, b, k);
    let j = choose|j: int| parts_at(b, c, j);
    let m = if k < j {
        k
    } else {
        j
    };
    assert forall|i: int| 0 <= i < m implies #[trigger] a[i] == c[i] by {
        assert(b[i] == c[i]);
    }
    assert(parts_at(a, c, m)) by {
        if k < j {
            assert(b[k] == c[k]);
        } else if j < k {
            assert(a[j] == b[j]);
        }
    }
}

/// Whether `a` comes before `b`.
pub fn is_before(a: &Vec<usize>, b: &Vec<usize>) -> (r: bool)
    ensures
        r == before(a@, b@),
        !r ==> a@ == b@ || before(b@, a@),
{
    let mut k: usize = 0;
    while k < a.len() && k < b.len()
        invariant
            k <= a@.len(),
            k <= b@.len(),
            forall|i: int| 0 <= i < k ==> #[trigger] a@[i] == b@[i],
        decreases a@.len() - k,
    {
        if a[k] < b[k] {
            proof {
                assert(parts_at(a@, b@, k as int));
            }
            return true;
        }
        if b[k] < a[k] {
            proof {
                assert(parts_at(b@, a@, k as int));
                lemma_before_asymmetric(b@, a@);
            }
            return false;
        }
        k += 1;
    }
    if k < b.len() {
        proof {
            assert(parts_at(a@, b@, k as int));
        }
        true
    } else {
        proof {
            if k < a@.len() {
                assert(parts_at(b@, a@, k as int));
                lemma_before_asymmetric(b@, a@);
            } else {
                assert(a@ =~= b@);
                if before(a@, b@) {
                    lemma_before_asymmetric(a@, b@);
                }
            }
        }
        false
    }
}

// ---------------------------------------------------------------------------
// Sorting
// ---------------------------------------------------------------------------

/// `list` goes through the keys in order.
pub open spec fn sorted(keys: Seq<Vec<usize>>, list: Seq<usize>) -> bool {
    forall|i: int, j: int|
        0 <= i < j < list.len() ==> !before(
            keys[#[trigger] list[j] as int]@,
            keys[#[trigger] list[i] as int]@,
        )
}

/// `list` names exactly the numbers from `lo` to `hi`.
pub open spec fn spans(list: Seq<usize>, lo: int, hi: int) -> bool {
    &&& forall|i: int| 0 <= i < list.len() ==> lo <= #[trigger] list[i] < hi
    &&& forall|x: usize| lo <= x < hi ==> #[trigger] list.contains(x)
}

fn merge(
    keys: &Vec<Vec<usize>>,
    a: &Vec<usize>,
    b: &Vec<usize>,
    Ghost(lo): Ghost<int>,
    Ghost(mid): Ghost<int>,
    Ghost(hi): Ghost<int>,
) -> (r: Vec<usize>)
    requires
        0 <= lo <= mid <= hi <= keys@.len(),
        spans(a@, lo, mid),
        spans(b@, mid, hi),
        sorted(keys@, a@),
        sorted(keys@, b@),
    ensures
        spans(r@, lo, hi),
        sorted(keys@, r@),
{
    let mut r: Vec<usize> = Vec::new();
    let mut i: usize = 0;
    let mut j: usize = 0;
    let ghost ks = keys@;
    while i < a.len() || j < b.len()
        invariant
            i <= a@.len(),
            j <= b@.len(),
            ks == keys@,
            0 <= lo <= mid <= hi <= ks.len(),
            spans(a@, lo, mid),
            spans(b@, mid, hi),
            sorted(ks, a@),
            sorted(ks, b@),
            sorted(ks, r@),
            forall|z: int| 0 <= z < r@.len() ==> lo <= #[trigger] r@[z] < hi,
            forall|z: int| 0 <= z < i ==> r@.contains(#[trigger] a@[z]),
            forall|z: int| 0 <= z < j ==> r@.contains(#[trigger] b@[z]),
            forall|z: int, y: int|
                0 <= z < r@.len() && i <= y < a@.len() ==> !before(
                    ks[#[trigger] a@[y] as int]@,
                    ks[#[trigger] r@[z] as int]@,
                ),
            forall|z: int, y: int|
                0 <= z < r@.len() && j <= y < b@.len() ==> !before(
                    ks[#[trigger] b@[y] as int]@,
                    ks[#[trigger] r@[z] as int]@,
                ),
        decreases a@.len() - i + b@.len() - j,
    {
        let left = if i < a.len() {
            if j < b.len() {
                !is_before(&keys[b[j]], &keys[a[i]])
            } else {
                true
            }
        } else {
            false
        };
        let ghost r0 = r@;
        let x: usize = if left {
            a[i]
        } else {
            b[j]
        };
        r.push(x);
        proof {
            assert forall|y: usize| r0.contains(y) implies #[trigger] r@.contains(y) by {
                let z = choose|z: int| 0 <= z < r0.len() && r0[z] == y;
                assert(r@[z] == y);
            }
            assert(r@[r0.len() as int] == x);
            assert(r@.contains(x));
            if left {
                assert forall|y: int| j <= y < b@.len() implies !before(
                    ks[#[trigger] b@[y] as int]@,
                    ks[x as int]@,
                ) by {
                    if before(ks[b@[y] as int]@, ks[x as int]@) {
                        lemma_chain(ks, b@, j as int, y, x);
                    }
                }
            } else {
                assert forall|y: int| i <= y < a@.len() implies !before(
                    ks[#[trigger] a@[y] as int]@,
                    ks[x as int]@,
                ) by {
                    if before(ks[a@[y] as int]@, ks[x as int]@) {
                        lemma_chain(ks, a@, i as int, y, x);
                        lemma_before_asymmetric(ks[a@[i as int] as int]@, ks[x as int]@);
                    }
                }
            }
            assert(sorted(ks, r@));
        }
        if left {
            i += 1;
        } else {
            j += 1;
        }
    }
    proof {
        assert forall|x: usize| lo <= x < hi implies #[trigger] r@.contains(x) by {
            if x < mid {
                assert(a@.contains(x));
                let z = choose|z: int| 0 <= z < a@.len() && a@[z] == x;
                assert(r@.contains(a@[z]));
            } else {
                assert(b@.contains(x));
                let z = choose|z: int| 0 <= z < b@.len() && b@[z] == x;
                assert(r@.contains(b@[z]));
            }
        }
    }
    r
}

/// What comes before `x` from a sorted list lets its first element come before `x`.
proof fn lemma_chain(ks: Seq<Vec<usize>>, list: Seq<usize>, i: int, y: int, x: usize)
    requires
        0 <= i <= y < list.len(),
        sorted(ks, list),
        before(ks[list[y] as int]@, ks[x as int]@),
    ensures
        before(ks[list[i] as int]@, ks[x as int]@),
{
    let a = ks[list[i] as int]@;
    let b = ks[list[y] as int]@;
    let c = ks[x as int]@;
    if i < y {
        assert(!before(b, a));
        lemma_total(a, b);
        if a != b {
            lemma_before_transitive(a, b, c);
        }
    }
}

/// Of two different sequences one comes first.
pub proof fn lemma_total(a: Seq<usize>, b: Seq<usize>)
    ensures
        a == b || before(a, b) || before(b, a),
    decreases a.len(),
{
    lemma_total_from(a, b, 0);
}

proof fn lemma_total_from(a: Seq<usize>, b: Seq<usize>, k: int)
    requires
        0 <= k <= a.len(),
        k <= b.len(),
        forall|i: int| 0 <= i < k ==> #[trigger] a[i] == b[i],
    ensures
        a == b || before(a, b) || before(b, a),
    decreases a.len() - k,
{
    if k == a.len() {
        if k == b.len() {
            assert(a =~= b);
        } else {
            assert(parts_at(a, b, k));
        }
    } else if k == b.len() || b[k] < a[k] {
        assert(parts_at(b, a, k));
    } else if a[k] < b[k] {
        assert(parts_at(a, b, k));
    } else {
        lemma_total_from(a, b, k + 1);
    }
}

fn sort_range(keys: &Vec<Vec<usize>>, lo: usize, hi: usize) -> (r: Vec<usize>)
    requires
        lo <= hi <= keys@.len(),
    ensures
        spans(r@, lo as int, hi as int),
        sorted(keys@, r@),
    decreases hi - lo,
{
    if lo == hi {
        Vec::new()
    } else if hi - lo == 1 {
        let r: Vec<usize> = vec![lo];
        proof {
            assert(r@[0] == lo);
        }
        r
    } else {
        let mid: usize = lo + (hi - lo) / 2;
        let a = sort_range(keys, lo, mid);
        let b = sort_range(keys, mid, hi);
        merge(keys, &a, &b, Ghost(lo as int), Ghost(mid as int), Ghost(hi as int))
    }
}

/// The numbers of the keys, in the order of the keys.
pub fn sort(keys: &Vec<Vec<usize>>) -> (r: Vec<usize>)
    ensures
        spans(r@, 0, keys@.len() as int),
        sorted(keys@, r@),
{
    sort_range(keys, 0, keys.len())
}

// ---------------------------------------------------------------------------
// Ranks
// ---------------------------------------------------------------------------

/// A value that has a place in the order.
pub trait Ranked: View + Sized {
    spec fn rank(x: Self::V) -> Seq<usize>;

    /// Values of the same rank are the same.
    proof fn lemma_rank(x: Self::V, y: Self::V)
        requires
            Self::rank(x) == Self::rank(y),
        ensures
            x == y,
    ;

    fn key(&self) -> (r: Vec<usize>)
        ensures
            r@ == Self::rank(self@),
    ;

    fn twin(&self) -> (r: Self)
        ensures
            r@ == self@,
    ;
}

/// A list in order, without repetitions.
pub open spec fn ascending<T: Ranked>(v: Seq<T>) -> bool {
    forall|i: int, j: int|
        0 <= i < j < v.len() ==> before(T::rank((#[trigger] v[i])@), T::rank((#[trigger] v[j])@))
}

/// A list in order without repetitions is determined by what it holds.
pub proof fn law_order_is_unique<T: Ranked>(a: Seq<T>, b: Seq<T>)
    requires
        ascending(a),
        ascending(b),
        tuples(a) == tuples(b),
    ensures
        a.len() == b.len(),
        forall|i: int| 0 <= i < a.len() ==> (#[trigger] a[i])@ == b[i]@,
{
    let n = if a.len() < b.len() {
        a.len() as int
    } else {
        b.len() as int
    };
    lemma_same_start(a, b, n);
    if n < a.len() {
        assert(tuples(a).contains(a[n]@));
        let j = choose|j: int| 0 <= j < b.len() && (#[trigger] b[j])@ == a[n]@;
        assert(a[j]@ == b[j]@);
        lemma_before_asymmetric(T::rank(a[j]@), T::rank(a[n]@));
    }
    if n < b.len() {
        assert(tuples(b).contains(b[n]@));
        let j = choose|j: int| 0 <= j < a.len() && (#[trigger] a[j])@ == b[n]@;
        assert(a[j]@ == b[j]@);
        lemma_before_asymmetric(T::rank(b[j]@), T::rank(b[n]@));
    }
}

proof fn lemma_same_start<T: Ranked>(a: Seq<T>, b: Seq<T>, n: int)
    requires
        ascending(a),
        ascending(b),
        tuples(a) == tuples(b),
        0 <= n <= a.len(),
        n <= b.len(),
    ensures
        forall|i: int| 0 <= i < n ==> (#[trigger] a[i])@ == b[i]@,
    decreases n,
{
    if n > 0 {
        let m = n - 1;
        lemma_same_start(a, b, m);
        assert(tuples(a).contains(a[m]@));
        assert(tuples(b).contains(b[m]@));
        let j = choose|j: int| 0 <= j < b.len() && (#[trigger] b[j])@ == a[m]@;
        let k = choose|k: int| 0 <= k < a.len() && (#[trigger] a[k])@ == b[m]@;
        if j < m {
            assert(a[j]@ == b[j]@);
            lemma_before_asymmetric(T::rank(a[j]@), T::rank(a[m]@));
        } else if k < m {
            assert(a[k]@ == b[k]@);
            lemma_before_asymmetric(T::rank(b[k]@), T::rank(b[m]@));
        } else if j > m && k > m {
            lemma_before_asymmetric(T::rank(b[m]@), T::rank(b[j]@));
        }
    }
}

/// The same values in order, each once.
pub fn ordered<T: Ranked>(v: &Vec<T>) -> (r: Vec<T>)
    ensures
        tuples(r@) == tuples(v@),
        ascending(r@),
{
    let mut keys: Vec<Vec<usize>> = Vec::new();
    let mut i: usize = 0;
    while i < v.len()
        invariant
            i <= v@.len(),
            keys@.len() == i,
            forall|j: int| 0 <= j < i ==> (#[trigger] keys@[j])@ == T::rank(v@[j]@),
        decreases v@.len() - i,
    {
        let key = v[i].key();
        keys.push(key);
        i += 1;
    }
    let list = sort(&keys);
    let mut r: Vec<T> = Vec::new();
    let ghost ks = keys@;
    i = 0;
    while i < list.len()
        invariant
            i <= list@.len(),
            ks == keys@,
            ks.len() == v@.len(),
            spans(list@, 0, ks.len() as int),
            sorted(ks, list@),
            forall|j: int| 0 <= j < ks.len() ==> (#[trigger] ks[j])@ == T::rank(v@[j]@),
            forall|j: int|
                0 <= j < i ==> exists|z: int|
                    0 <= z < r@.len() && (#[trigger] r@[z])@ == v@[(#[trigger] list@[j]) as int]@,
            forall|z: int|
                0 <= z < r@.len() ==> exists|j: int|
                    0 <= j < v@.len() && (#[trigger] v@[j])@ == (#[trigger] r@[z])@,
            ascending(r@),
            i == 0 ==> r@.len() == 0,
            i > 0 ==> r@.len() > 0 && r@.last()@ == v@[list@[i - 1] as int]@,
        decreases list@.len() - i,
    {
        let x: usize = list[i];
        let ghost r0 = r@;
        let fresh = if i == 0 {
            true
        } else {
            proof {
                assert(!before(ks[list@[i as int] as int]@, ks[list@[i - 1] as int]@));
                lemma_total(ks[list@[i - 1] as int]@, ks[x as int]@);
            }
            is_before(&keys[list[i - 1]], &keys[x])
        };
        if fresh {
            let y = v[x].twin();
            r.push(y);
            proof {
                assert(r@.last() == y);
                assert forall|z: int, q: int| 0 <= z < q < r@.len() implies before(
                    T::rank((#[trigger] r@[z])@),
                    T::rank((#[trigger] r@[q])@),
                ) by {
                    if q == r0.len() {
                        let last = T::rank(r0.last()@);
                        assert(last == ks[list@[i - 1] as int]@);
                        if z < q - 1 {
                            assert(before(T::rank(r0[z]@), T::rank(r0[q - 1]@)));
                            lemma_before_transitive(T::rank(r0[z]@), last, T::rank(y@));
                        }
                    } else {
                        assert(before(T::rank(r0[z]@), T::rank(r0[q]@)));
                    }
                }
                assert forall|j: int| 0 <= j < i + 1 implies exists|z: int|
                    0 <= z < r@.len() && (#[trigger] r@[z])@
                        == v@[(#[trigger] list@[j]) as int]@ by {
                    if j < i {
                        let z = choose|z: int|
                            0 <= z < r0.len() && (#[trigger] r0[z])@ == v@[list@[j] as int]@;
                        assert(r@[z]@ == v@[list@[j] as int]@);
                    } else {
                        assert(r@[r0.len() as int]@ == v@[list@[j] as int]@);
                    }
                }
            }
        } else {
            proof {
                T::lemma_rank(v@[list@[i - 1] as int]@, v@[x as int]@);
                assert(r@[r@.len() - 1]@ == v@[x as int]@);
            }
        }
        i += 1;
    }
    proof {
        assert(tuples(r@) =~= tuples(v@)) by {
            assert forall|x: T::V| tuples(v@).contains(x)
                implies #[trigger] tuples(r@).contains(x) by {
                let j = choose|j: int| 0 <= j < v@.len() && (#[trigger] v@[j])@ == x;
                assert(list@.contains(j as usize));
                let q = choose|q: int| 0 <= q < list@.len() && list@[q] == j as usize;
                let z = choose|z: int|
                    0 <= z < r@.len() && (#[trigger] r@[z])@ == v@[list@[q] as int]@;
                assert(r@[z]@ == x);
            }
        }
    }
    r
}

// ---------------------------------------------------------------------------
// The ranks of the domain
// ---------------------------------------------------------------------------

/// A character, after the end of every text.
pub open spec fn char_rank(c: char) -> usize {
    (c as usize + 1) as usize
}

proof fn lemma_char_rank(c: char, d: char)
    ensures
        char_rank(c) > 0,
        char_rank(c) == char_rank(d) ==> c == d,
{
}

/// Text: its characters, and an end that comes before every character.
pub open spec fn name_rank(s: Name) -> Seq<usize> {
    Seq::new(s.len(), |i: int| char_rank(s[i])).push(0)
}

/// A call string: each site announced, then an end.
pub open spec fn chain_rank(s: Seq<Name>) -> Seq<usize>
    decreases s.len(),
{
    if s.len() == 0 {
        seq![0usize]
    } else {
        seq![1usize] + name_rank(s[0]) + chain_rank(s.drop_first())
    }
}

pub open spec fn instance_rank(id: Instance) -> Seq<usize> {
    name_rank(id.stmt) + chain_rank(id.chain)
}

pub open spec fn root_rank(r: Root) -> Seq<usize> {
    match r {
        Root::Var(v) => seq![0usize] + name_rank(v),
        Root::Param(p, i) => seq![1usize] + name_rank(p) + seq![i],
        Root::Ret(p) => seq![2usize] + name_rank(p),
        Root::Slot(id, i) => seq![3usize] + instance_rank(id) + seq![i],
        Root::Res(id) => seq![4usize] + instance_rank(id),
    }
}

pub open spec fn step_rank(a: Step) -> Seq<usize> {
    match a {
        Step::Field(f) => seq![0usize] + name_rank(f),
        Step::Index(c) => seq![1usize] + name_rank(c),
        Step::Unknown => seq![2usize],
    }
}

/// A suffix: each accessor announced, then an end.
pub open spec fn steps_rank(s: Seq<Step>) -> Seq<usize>
    decreases s.len(),
{
    if s.len() == 0 {
        seq![0usize]
    } else {
        seq![1usize] + step_rank(s[0]) + steps_rank(s.drop_first())
    }
}

pub open spec fn path_rank(w: Path) -> Seq<usize> {
    root_rank(w.root) + steps_rank(w.steps)
}

pub open spec fn value_rank(v: Value) -> Seq<usize> {
    match v {
        Value::Path(w) => seq![0usize] + path_rank(w),
        Value::Alloc(l) => seq![1usize] + name_rank(l),
        Value::Const(c) => seq![2usize] + name_rank(c),
    }
}

/// A constraint: which kind it is, then what contains, then what is contained.
pub open spec fn inclusion_rank(c: Inclusion) -> Seq<usize> {
    match c.sub {
        Value::Path(w) => seq![0usize] + path_rank(c.sup) + path_rank(w),
        Value::Alloc(l) => seq![1usize] + path_rank(c.sup) + name_rank(l),
        Value::Const(x) => seq![2usize] + path_rank(c.sup) + name_rank(x),
    }
}

// -- no rank is the beginning of another ----------------------------------------

pub proof fn lemma_skip(a: Seq<usize>, x: Seq<usize>, y: Seq<usize>)
    requires
        a + x == a + y,
    ensures
        x == y,
{
    assert((a + x).skip(a.len() as int) =~= x);
    assert((a + y).skip(a.len() as int) =~= y);
}

pub proof fn lemma_name_rank(a: Name, b: Name, x: Seq<usize>, y: Seq<usize>)
    requires
        name_rank(a) + x == name_rank(b) + y,
    ensures
        a == b,
        x == y,
{
    let l = name_rank(a) + x;
    let r = name_rank(b) + y;
    if a.len() < b.len() {
        assert(l[a.len() as int] == 0);
        assert(r[a.len() as int] == char_rank(b[a.len() as int]));
        lemma_char_rank(b[a.len() as int], b[a.len() as int]);
    }
    if b.len() < a.len() {
        assert(r[b.len() as int] == 0);
        assert(l[b.len() as int] == char_rank(a[b.len() as int]));
        lemma_char_rank(a[b.len() as int], a[b.len() as int]);
    }
    assert(a.len() == b.len());
    assert forall|i: int| 0 <= i < a.len() implies a[i] == b[i] by {
        assert(name_rank(a)[i] == char_rank(a[i]));
        assert(name_rank(b)[i] == char_rank(b[i]));
        lemma_char_rank(a[i], b[i]);
        assert(l[i] == name_rank(a)[i] && r[i] == name_rank(b)[i]);
    }
    assert(a =~= b);
    lemma_skip(name_rank(a), x, y);
}

proof fn lemma_chain_rank(a: Seq<Name>, b: Seq<Name>, x: Seq<usize>, y: Seq<usize>)
    requires
        chain_rank(a) + x == chain_rank(b) + y,
    ensures
        a == b,
        x == y,
    decreases a.len(),
{
    let l = chain_rank(a) + x;
    let r = chain_rank(b) + y;
    assert(l[0] == (if a.len() == 0 {
        0usize
    } else {
        1usize
    }));
    assert(r[0] == (if b.len() == 0 {
        0usize
    } else {
        1usize
    }));
    if a.len() == 0 {
        assert(a =~= b);
        lemma_skip(chain_rank(a), x, y);
    } else {
        let xa = chain_rank(a.drop_first()) + x;
        let yb = chain_rank(b.drop_first()) + y;
        assert(l =~= seq![1usize] + (name_rank(a[0]) + xa));
        assert(r =~= seq![1usize] + (name_rank(b[0]) + yb));
        lemma_skip(seq![1usize], name_rank(a[0]) + xa, name_rank(b[0]) + yb);
        lemma_name_rank(a[0], b[0], xa, yb);
        lemma_chain_rank(a.drop_first(), b.drop_first(), x, y);
        assert(a =~= seq![a[0]] + a.drop_first());
        assert(b =~= seq![b[0]] + b.drop_first());
    }
}

proof fn lemma_instance_rank(a: Instance, b: Instance, x: Seq<usize>, y: Seq<usize>)
    requires
        instance_rank(a) + x == instance_rank(b) + y,
    ensures
        a == b,
        x == y,
{
    let xa = chain_rank(a.chain) + x;
    let yb = chain_rank(b.chain) + y;
    assert(instance_rank(a) + x =~= name_rank(a.stmt) + xa);
    assert(instance_rank(b) + y =~= name_rank(b.stmt) + yb);
    lemma_name_rank(a.stmt, b.stmt, xa, yb);
    lemma_chain_rank(a.chain, b.chain, x, y);
}

proof fn lemma_step_rank(a: Step, b: Step, x: Seq<usize>, y: Seq<usize>)
    requires
        step_rank(a) + x == step_rank(b) + y,
    ensures
        a == b,
        x == y,
{
    let l = step_rank(a) + x;
    let r = step_rank(b) + y;
    let tag = step_rank(a)[0];
    assert(l[0] == tag);
    assert(r[0] == step_rank(b)[0]);
    match (a, b) {
        (Step::Field(f), Step::Field(g)) => {
            assert(l =~= seq![tag] + (name_rank(f) + x));
            assert(r =~= seq![tag] + (name_rank(g) + y));
            lemma_skip(seq![tag], name_rank(f) + x, name_rank(g) + y);
            lemma_name_rank(f, g, x, y);
        },
        (Step::Index(f), Step::Index(g)) => {
            assert(l =~= seq![tag] + (name_rank(f) + x));
            assert(r =~= seq![tag] + (name_rank(g) + y));
            lemma_skip(seq![tag], name_rank(f) + x, name_rank(g) + y);
            lemma_name_rank(f, g, x, y);
        },
        (Step::Unknown, Step::Unknown) => {
            lemma_skip(seq![tag], x, y);
        },
        _ => {},
    }
}

proof fn lemma_steps_rank(a: Seq<Step>, b: Seq<Step>, x: Seq<usize>, y: Seq<usize>)
    requires
        steps_rank(a) + x == steps_rank(b) + y,
    ensures
        a == b,
        x == y,
    decreases a.len(),
{
    let l = steps_rank(a) + x;
    let r = steps_rank(b) + y;
    assert(l[0] == (if a.len() == 0 {
        0usize
    } else {
        1usize
    }));
    assert(r[0] == (if b.len() == 0 {
        0usize
    } else {
        1usize
    }));
    if a.len() == 0 {
        assert(a =~= b);
        lemma_skip(steps_rank(a), x, y);
    } else {
        let xa = steps_rank(a.drop_first()) + x;
        let yb = steps_rank(b.drop_first()) + y;
        assert(l =~= seq![1usize] + (step_rank(a[0]) + xa));
        assert(r =~= seq![1usize] + (step_rank(b[0]) + yb));
        lemma_skip(seq![1usize], step_rank(a[0]) + xa, step_rank(b[0]) + yb);
        lemma_step_rank(a[0], b[0], xa, yb);
        lemma_steps_rank(a.drop_first(), b.drop_first(), x, y);
        assert(a =~= seq![a[0]] + a.drop_first());
        assert(b =~= seq![b[0]] + b.drop_first());
    }
}

proof fn lemma_root_rank(a: Root, b: Root, x: Seq<usize>, y: Seq<usize>)
    requires
        root_rank(a) + x == root_rank(b) + y,
    ensures
        a == b,
        x == y,
{
    let l = root_rank(a) + x;
    let r = root_rank(b) + y;
    let tag = root_rank(a)[0];
    assert(l[0] == tag);
    assert(r[0] == root_rank(b)[0]);
    match (a, b) {
        (Root::Var(p), Root::Var(q)) => {
            assert(l =~= seq![tag] + (name_rank(p) + x));
            assert(r =~= seq![tag] + (name_rank(q) + y));
            lemma_skip(seq![tag], name_rank(p) + x, name_rank(q) + y);
            lemma_name_rank(p, q, x, y);
        },
        (Root::Ret(p), Root::Ret(q)) => {
            assert(l =~= seq![tag] + (name_rank(p) + x));
            assert(r =~= seq![tag] + (name_rank(q) + y));
            lemma_skip(seq![tag], name_rank(p) + x, name_rank(q) + y);
            lemma_name_rank(p, q, x, y);
        },
        (Root::Param(p, i), Root::Param(q, j)) => {
            let xi = seq![i] + x;
            let yj = seq![j] + y;
            assert(l =~= seq![tag] + (name_rank(p) + xi));
            assert(r =~= seq![tag] + (name_rank(q) + yj));
            lemma_skip(seq![tag], name_rank(p) + xi, name_rank(q) + yj);
            lemma_name_rank(p, q, xi, yj);
            assert(xi[0] == yj[0]);
            lemma_skip(seq![i], x, y);
        },
        (Root::Res(p), Root::Res(q)) => {
            assert(l =~= seq![tag] + (instance_rank(p) + x));
            assert(r =~= seq![tag] + (instance_rank(q) + y));
            lemma_skip(seq![tag], instance_rank(p) + x, instance_rank(q) + y);
            lemma_instance_rank(p, q, x, y);
        },
        (Root::Slot(p, i), Root::Slot(q, j)) => {
            let xi = seq![i] + x;
            let yj = seq![j] + y;
            assert(l =~= seq![tag] + (instance_rank(p) + xi));
            assert(r =~= seq![tag] + (instance_rank(q) + yj));
            lemma_skip(seq![tag], instance_rank(p) + xi, instance_rank(q) + yj);
            lemma_instance_rank(p, q, xi, yj);
            assert(xi[0] == yj[0]);
            lemma_skip(seq![i], x, y);
        },
        _ => {},
    }
}

proof fn lemma_path_rank(a: Path, b: Path, x: Seq<usize>, y: Seq<usize>)
    requires
        path_rank(a) + x == path_rank(b) + y,
    ensures
        a == b,
        x == y,
{
    let xa = steps_rank(a.steps) + x;
    let yb = steps_rank(b.steps) + y;
    assert(path_rank(a) + x =~= root_rank(a.root) + xa);
    assert(path_rank(b) + y =~= root_rank(b.root) + yb);
    lemma_root_rank(a.root, b.root, xa, yb);
    lemma_steps_rank(a.steps, b.steps, x, y);
}

// -- writing ranks -----------------------------------------------------------------

pub fn put(out: &mut Vec<usize>, x: usize)
    ensures
        final(out)@ == old(out)@ + seq![x],
{
    out.push(x);
    proof {
        assert(out@ =~= old(out)@ + seq![x]);
    }
}

pub fn put_name(out: &mut Vec<usize>, s: &String)
    ensures
        final(out)@ == old(out)@ + name_rank(s@),
{
    let t = s.as_str();
    let n: usize = t.unicode_len();
    let mut i: usize = 0;
    let ghost start = out@;
    let ghost all = Seq::new(s@.len(), |i: int| char_rank(s@[i]));
    while i < n
        invariant
            i <= n,
            n == s@.len(),
            t@ == s@,
            all == Seq::new(s@.len(), |i: int| char_rank(s@[i])),
            out@ == start + all.take(i as int),
        decreases n - i,
    {
        let c = t.get_char(i);
        out.push(c as usize + 1);
        proof {
            assert(all.take(i + 1) =~= all.take(i as int).push(all[i as int]));
            assert(out@ =~= start + all.take(i + 1));
        }
        i += 1;
    }
    out.push(0);
    proof {
        assert(all.take(n as int) =~= all);
        assert(out@ =~= start + name_rank(s@));
    }
}

fn put_instance(out: &mut Vec<usize>, id: &CritId)
    ensures
        final(out)@ == old(out)@ + instance_rank(id@),
{
    let ghost start = out@;
    put_name(out, id.stmt.text());
    let ghost chain = id@.chain;
    let mut i: usize = 0;
    proof {
        assert(chain.skip(0) =~= chain);
        assert(out@ + chain_rank(chain) =~= start + instance_rank(id@));
    }
    while i < id.chain.len()
        invariant
            i <= id.chain@.len(),
            chain == names(id.chain@),
            out@ + chain_rank(chain.skip(i as int)) == start + instance_rank(id@),
        decreases id.chain@.len() - i,
    {
        let ghost o0 = out@;
        put(out, 1);
        put_name(out, id.chain[i].text());
        proof {
            let rest = chain.skip(i as int);
            assert(rest[0] == chain[i as int]);
            assert(rest.drop_first() =~= chain.skip(i + 1));
            assert(out@ + chain_rank(chain.skip(i + 1)) =~= o0 + chain_rank(rest));
        }
        i += 1;
    }
    let ghost o1 = out@;
    put(out, 0);
    proof {
        assert(chain.skip(i as int).len() == 0);
        assert(chain_rank(chain.skip(i as int)) =~= seq![0usize]);
    }
}

fn put_step(out: &mut Vec<usize>, a: &Accessor)
    ensures
        final(out)@ == old(out)@ + step_rank(a@),
{
    let ghost start = out@;
    match a {
        Accessor::Field(f) => {
            put(out, 0);
            put_name(out, f.text());
        },
        Accessor::Index(c) => {
            put(out, 1);
            put_name(out, c.text());
        },
        Accessor::IndexUnknown => {
            put(out, 2);
        },
    }
    proof {
        assert(out@ =~= start + step_rank(a@));
    }
}

fn put_steps(out: &mut Vec<usize>, v: &Vec<Accessor>)
    ensures
        final(out)@ == old(out)@ + steps_rank(steps(v@)),
{
    let ghost start = out@;
    let ghost all = steps(v@);
    let mut i: usize = 0;
    proof {
        assert(all.skip(0) =~= all);
    }
    while i < v.len()
        invariant
            i <= v@.len(),
            all == steps(v@),
            out@ + steps_rank(all.skip(i as int)) == start + steps_rank(all),
        decreases v@.len() - i,
    {
        let ghost o0 = out@;
        put(out, 1);
        put_step(out, &v[i]);
        proof {
            let rest = all.skip(i as int);
            assert(rest[0] == all[i as int]);
            assert(rest.drop_first() =~= all.skip(i + 1));
            assert(out@ + steps_rank(all.skip(i + 1)) =~= o0 + steps_rank(rest));
        }
        i += 1;
    }
    put(out, 0);
    proof {
        assert(all.skip(i as int).len() == 0);
        assert(steps_rank(all.skip(i as int)) =~= seq![0usize]);
    }
}

fn put_root(out: &mut Vec<usize>, b: &Base)
    ensures
        final(out)@ == old(out)@ + root_rank(b@),
{
    let ghost start = out@;
    match b {
        Base::Var(v) => {
            put(out, 0);
            put_name(out, v.text());
        },
        Base::Param(p, i) => {
            put(out, 1);
            put_name(out, p.text());
            put(out, *i);
        },
        Base::Ret(p) => {
            put(out, 2);
            put_name(out, p.text());
        },
        Base::CritSlot(id, i) => {
            put(out, 3);
            put_instance(out, id);
            put(out, *i);
        },
        Base::CritRet(id) => {
            put(out, 4);
            put_instance(out, id);
        },
    }
    proof {
        assert(out@ =~= start + root_rank(b@));
    }
}

fn put_path(out: &mut Vec<usize>, w: &AccessPath)
    ensures
        final(out)@ == old(out)@ + path_rank(w@),
{
    let ghost start = out@;
    put_root(out, &w.base);
    put_steps(out, &w.accessors);
    proof {
        assert(out@ =~= start + path_rank(w@));
    }
}

impl Ranked for Proc {
    open spec fn rank(x: Name) -> Seq<usize> {
        name_rank(x)
    }

    proof fn lemma_rank(x: Name, y: Name) {
        lemma_name_rank(x, y, Seq::empty(), Seq::empty());
    }

    fn key(&self) -> (r: Vec<usize>) {
        let mut out: Vec<usize> = Vec::new();
        put_name(&mut out, self.text());
        proof {
            assert(out@ =~= name_rank(self@));
        }
        out
    }

    fn twin(&self) -> (r: Self) {
        self.clone()
    }
}

impl Ranked for CritId {
    open spec fn rank(x: Instance) -> Seq<usize> {
        instance_rank(x)
    }

    proof fn lemma_rank(x: Instance, y: Instance) {
        lemma_instance_rank(x, y, Seq::empty(), Seq::empty());
    }

    fn key(&self) -> (r: Vec<usize>) {
        let mut out: Vec<usize> = Vec::new();
        put_instance(&mut out, self);
        proof {
            assert(out@ =~= instance_rank(self@));
        }
        out
    }

    fn twin(&self) -> (r: Self) {
        self.clone()
    }
}

impl Ranked for Accessor {
    open spec fn rank(x: Step) -> Seq<usize> {
        step_rank(x)
    }

    proof fn lemma_rank(x: Step, y: Step) {
        lemma_step_rank(x, y, Seq::empty(), Seq::empty());
    }

    fn key(&self) -> (r: Vec<usize>) {
        let mut out: Vec<usize> = Vec::new();
        put_step(&mut out, self);
        proof {
            assert(out@ =~= step_rank(self@));
        }
        out
    }

    fn twin(&self) -> (r: Self) {
        self.clone()
    }
}

impl Ranked for Suffix {
    open spec fn rank(x: Seq<Step>) -> Seq<usize> {
        steps_rank(x)
    }

    proof fn lemma_rank(x: Seq<Step>, y: Seq<Step>) {
        lemma_steps_rank(x, y, Seq::empty(), Seq::empty());
    }

    fn key(&self) -> (r: Vec<usize>) {
        let mut out: Vec<usize> = Vec::new();
        put_steps(&mut out, &self.0);
        proof {
            assert(out@ =~= steps_rank(self@));
        }
        out
    }

    fn twin(&self) -> (r: Self) {
        self.clone()
    }
}

impl Ranked for PtVal {
    open spec fn rank(x: Value) -> Seq<usize> {
        value_rank(x)
    }

    proof fn lemma_rank(x: Value, y: Value) {
        let e = Seq::<usize>::empty();
        assert(value_rank(x)[0] == value_rank(y)[0]);
        let tag = seq![value_rank(x)[0]];
        match (x, y) {
            (Value::Path(a), Value::Path(b)) => {
                lemma_skip(tag, path_rank(a), path_rank(b));
                lemma_path_rank(a, b, e, e);
            },
            (Value::Alloc(a), Value::Alloc(b)) => {
                lemma_skip(tag, name_rank(a), name_rank(b));
                lemma_name_rank(a, b, e, e);
            },
            (Value::Const(a), Value::Const(b)) => {
                lemma_skip(tag, name_rank(a), name_rank(b));
                lemma_name_rank(a, b, e, e);
            },
            _ => {},
        }
    }

    fn key(&self) -> (r: Vec<usize>) {
        let mut out: Vec<usize> = Vec::new();
        match self {
            PtVal::Path(w) => {
                put(&mut out, 0);
                put_path(&mut out, w);
            },
            PtVal::Alloc(l) => {
                put(&mut out, 1);
                put_name(&mut out, l.text());
            },
            PtVal::Const(c) => {
                put(&mut out, 2);
                put_name(&mut out, c.text());
            },
        }
        proof {
            assert(out@ =~= value_rank(self@));
        }
        out
    }

    fn twin(&self) -> (r: Self) {
        self.clone()
    }
}

impl Ranked for Constraint {
    open spec fn rank(x: Inclusion) -> Seq<usize> {
        inclusion_rank(x)
    }

    proof fn lemma_rank(x: Inclusion, y: Inclusion) {
        let e = Seq::<usize>::empty();
        let l = inclusion_rank(x);
        let r = inclusion_rank(y);
        assert(l[0] == r[0]);
        let tag = seq![l[0]];
        match (x.sub, y.sub) {
            (Value::Path(a), Value::Path(b)) => {
                assert(l =~= tag + (path_rank(x.sup) + path_rank(a)));
                assert(r =~= tag + (path_rank(y.sup) + path_rank(b)));
                lemma_skip(tag, path_rank(x.sup) + path_rank(a), path_rank(y.sup) + path_rank(b));
                lemma_path_rank(x.sup, y.sup, path_rank(a), path_rank(b));
                lemma_path_rank(a, b, e, e);
            },
            (Value::Alloc(a), Value::Alloc(b)) => {
                assert(l =~= tag + (path_rank(x.sup) + name_rank(a)));
                assert(r =~= tag + (path_rank(y.sup) + name_rank(b)));
                lemma_skip(tag, path_rank(x.sup) + name_rank(a), path_rank(y.sup) + name_rank(b));
                lemma_path_rank(x.sup, y.sup, name_rank(a), name_rank(b));
                lemma_name_rank(a, b, e, e);
            },
            (Value::Const(a), Value::Const(b)) => {
                assert(l =~= tag + (path_rank(x.sup) + name_rank(a)));
                assert(r =~= tag + (path_rank(y.sup) + name_rank(b)));
                lemma_skip(tag, path_rank(x.sup) + name_rank(a), path_rank(y.sup) + name_rank(b));
                lemma_path_rank(x.sup, y.sup, name_rank(a), name_rank(b));
                lemma_name_rank(a, b, e, e);
            },
            _ => {},
        }
    }

    fn key(&self) -> (r: Vec<usize>) {
        let mut out: Vec<usize> = Vec::new();
        match self {
            Constraint::Path { sup, sub } => {
                put(&mut out, 0);
                put_path(&mut out, sup);
                put_path(&mut out, sub);
            },
            Constraint::Alloc { sup, sub } => {
                put(&mut out, 1);
                put_path(&mut out, sup);
                put_name(&mut out, sub.text());
            },
            Constraint::Const { sup, sub } => {
                put(&mut out, 2);
                put_path(&mut out, sup);
                put_name(&mut out, sub.text());
            },
        }
        proof {
            assert(out@ =~= inclusion_rank(self@));
        }
        out
    }

    fn twin(&self) -> (r: Self) {
        self.clone()
    }
}

impl Ranked for (Proc, CritId, Proc) {
    open spec fn rank(x: (Name, Instance, Name)) -> Seq<usize> {
        name_rank(x.0) + instance_rank(x.1) + name_rank(x.2)
    }

    proof fn lemma_rank(x: (Name, Instance, Name), y: (Name, Instance, Name)) {
        let e = Seq::<usize>::empty();
        let xa = instance_rank(x.1) + name_rank(x.2);
        let yb = instance_rank(y.1) + name_rank(y.2);
        assert(Self::rank(x) =~= name_rank(x.0) + xa);
        assert(Self::rank(y) =~= name_rank(y.0) + yb);
        lemma_name_rank(x.0, y.0, xa, yb);
        lemma_instance_rank(x.1, y.1, name_rank(x.2), name_rank(y.2));
        lemma_name_rank(x.2, y.2, e, e);
    }

    fn key(&self) -> (r: Vec<usize>) {
        let mut out: Vec<usize> = Vec::new();
        put_name(&mut out, self.0.text());
        put_instance(&mut out, &self.1);
        put_name(&mut out, self.2.text());
        proof {
            assert(out@ =~= Self::rank(self@));
        }
        out
    }

    fn twin(&self) -> (r: Self) {
        (self.0.clone(), self.1.clone(), self.2.clone())
    }
}

impl Ranked for (Proc, Base) {
    open spec fn rank(x: (Name, Root)) -> Seq<usize> {
        name_rank(x.0) + root_rank(x.1)
    }

    proof fn lemma_rank(x: (Name, Root), y: (Name, Root)) {
        let e = Seq::<usize>::empty();
        lemma_name_rank(x.0, y.0, root_rank(x.1), root_rank(y.1));
        lemma_root_rank(x.1, y.1, e, e);
    }

    fn key(&self) -> (r: Vec<usize>) {
        let mut out: Vec<usize> = Vec::new();
        put_name(&mut out, self.0.text());
        put_root(&mut out, &self.1);
        proof {
            assert(out@ =~= Self::rank(self@));
        }
        out
    }

    fn twin(&self) -> (r: Self) {
        (self.0.clone(), self.1.clone())
    }
}

impl Ranked for (Proc, CritId) {
    open spec fn rank(x: (Name, Instance)) -> Seq<usize> {
        name_rank(x.0) + instance_rank(x.1)
    }

    proof fn lemma_rank(x: (Name, Instance), y: (Name, Instance)) {
        let e = Seq::<usize>::empty();
        lemma_name_rank(x.0, y.0, instance_rank(x.1), instance_rank(y.1));
        lemma_instance_rank(x.1, y.1, e, e);
    }

    fn key(&self) -> (r: Vec<usize>) {
        let mut out: Vec<usize> = Vec::new();
        put_name(&mut out, self.0.text());
        put_instance(&mut out, &self.1);
        proof {
            assert(out@ =~= Self::rank(self@));
        }
        out
    }

    fn twin(&self) -> (r: Self) {
        (self.0.clone(), self.1.clone())
    }
}

// ---------------------------------------------------------------------------
// Looking values up
// ---------------------------------------------------------------------------

/// A set of values, by their ranks.
pub struct RankSet {
    pub ranks: Table,
}

impl RankSet {
    /// The set of a list's values.
    pub open spec fn holds<T: Ranked>(&self, v: Seq<T>) -> bool {
        &&& self.ranks.wf()
        &&& forall|x: T::V| #[trigger] tuples(v).contains(x) <==> self.ranks@.contains(T::rank(x))
    }

    pub fn of_list<T: Ranked>(v: &Vec<T>) -> (r: Self)
        ensures
            r.holds(v@),
    {
        let mut t = Table::new();
        let mut i: usize = 0;
        while i < v.len()
            invariant
                i <= v@.len(),
                t.wf(),
                forall|row: Seq<usize>| #[trigger]
                    t@.contains(row) ==> exists|j: int|
                        0 <= j < i && T::rank((#[trigger] v@[j])@) == row,
                forall|j: int| 0 <= j < i ==> t@.contains(T::rank((#[trigger] v@[j])@)),
            decreases v@.len() - i,
        {
            let ghost before = t@;
            let key = v[i].key();
            let ghost cells = key@;
            t.insert(key);
            proof {
                assert forall|row: Seq<usize>| #[trigger] t@.contains(row) implies exists|j: int|
                    0 <= j < i + 1 && T::rank((#[trigger] v@[j])@) == row by {
                    if before.contains(row) {
                        let j = choose|j: int| 0 <= j < i && T::rank((#[trigger] v@[j])@) == row;
                        assert(T::rank(v@[j]@) == row);
                    } else {
                        assert(T::rank(v@[i as int]@) == row);
                    }
                }
            }
            i += 1;
        }
        proof {
            assert forall|x: T::V| #[trigger] tuples(v@).contains(x)
                <==> t@.contains(T::rank(x)) by {
                if tuples(v@).contains(x) {
                    let j = choose|j: int| 0 <= j < v@.len() && (#[trigger] v@[j])@ == x;
                    assert(t@.contains(T::rank(v@[j]@)));
                }
                if t@.contains(T::rank(x)) {
                    let j = choose|j: int|
                        0 <= j < v@.len() && T::rank((#[trigger] v@[j])@) == T::rank(x);
                    T::lemma_rank(v@[j]@, x);
                }
            }
        }
        RankSet { ranks: t }
    }

    pub fn has<T: Ranked>(&self, x: &T, Ghost(v): Ghost<Seq<T>>) -> (r: bool)
        requires
            self.holds(v),
        ensures
            r == tuples(v).contains(x@),
    {
        let key = x.key();
        proof {
            assert(tuples(v).contains(x@) <==> self.ranks@.contains(T::rank(x@)));
        }
        self.ranks.has(key.as_slice())
    }
}

} // verus!
