//! Relations over numbers: rows in the order they came, none twice, with an
//! index by the whole row and one by its first column.
use std::collections::HashMap;

use vstd::prelude::*;

verus! {

broadcast use vstd::std_specs::hash::group_hash_axioms;

/// Lists of numbers under numbers; a key that was never given a number has the
/// empty list.
struct Buckets {
    lists: HashMap<usize, Vec<usize>>,
}

impl Buckets {
    spec fn at(&self, key: usize) -> Seq<usize> {
        if self.lists@.contains_key(key) {
            self.lists@[key]@
        } else {
            Seq::empty()
        }
    }

    fn new() -> (r: Self)
        ensures
            forall|key: usize| r.at(key) == Seq::<usize>::empty(),
    {
        Buckets { lists: HashMap::new() }
    }

    fn get(&self, key: usize) -> (r: Option<&Vec<usize>>)
        ensures
            match r {
                Some(list) => list@ == self.at(key),
                None => self.at(key).len() == 0,
            },
    {
        self.lists.get(&key)
    }

    fn put(&mut self, key: usize, x: usize)
        ensures
            final(self).at(key) == old(self).at(key).push(x),
            forall|other: usize| other != key ==> final(self).at(other) == old(self).at(other),
    {
        let mut list: Vec<usize> = match self.lists.remove(&key) {
            Some(list) => list,
            None => Vec::new(),
        };
        list.push(x);
        self.lists.insert(key, list);
    }
}

/// The number a row is filed under.
spec fn digest(row: Seq<usize>) -> nat
    decreases row.len(),
{
    if row.len() == 0 {
        0
    } else {
        ((digest(row.drop_last()) * 31 + row.last() as nat % 1000003) % 1000003) as nat
    }
}

fn compute_digest(row: &[usize]) -> (r: usize)
    ensures
        r == digest(row@),
{
    let mut r: usize = 0;
    let mut i: usize = 0;
    while i < row.len()
        invariant
            i <= row@.len(),
            r == digest(row@.take(i as int)),
            r < 1000003,
        decreases row@.len() - i,
    {
        proof {
            let t = row@.take(i + 1);
            assert(t.drop_last() =~= row@.take(i as int));
        }
        r = (r * 31 + row[i] % 1000003) % 1000003;
        i += 1;
    }
    proof {
        assert(row@.take(i as int) =~= row@);
    }
    r
}

/// Whether two rows are the same.
pub fn same_row(a: &[usize], b: &[usize]) -> (r: bool)
    ensures
        r == (a@ == b@),
{
    if a.len() != b.len() {
        return false;
    }
    let mut i: usize = 0;
    while i < a.len()
        invariant
            i <= a@.len() == b@.len(),
            a@.take(i as int) == b@.take(i as int),
        decreases a@.len() - i,
    {
        if a[i] != b[i] {
            return false;
        }
        proof {
            assert(a@.take(i + 1) =~= a@.take(i as int).push(a@[i as int]));
            assert(b@.take(i + 1) =~= b@.take(i as int).push(b@[i as int]));
        }
        i += 1;
    }
    proof {
        assert(a@.take(i as int) =~= a@);
        assert(b@.take(i as int) =~= b@);
    }
    true
}

/// A copy of a row.
pub fn copy_row(row: &[usize]) -> (r: Vec<usize>)
    ensures
        r@ == row@,
{
    let mut r: Vec<usize> = Vec::new();
    let mut i: usize = 0;
    while i < row.len()
        invariant
            i <= row@.len(),
            r@ == row@.take(i as int),
        decreases row@.len() - i,
    {
        r.push(row[i]);
        proof {
            assert(row@.take(i + 1) =~= row@.take(i as int).push(row@[i as int]));
        }
        i += 1;
    }
    proof {
        assert(row@.take(i as int) =~= row@);
    }
    r
}

/// A relation: distinct rows, numbered in the order they came.
pub struct Table {
    rows: Vec<Vec<usize>>,
    by_digest: Buckets,
    by_head: Buckets,
}

impl View for Table {
    type V = Seq<Seq<usize>>;

    closed spec fn view(&self) -> Seq<Seq<usize>> {
        Seq::new(self.rows@.len(), |i: int| self.rows@[i]@)
    }
}

impl Table {
    /// No row twice, and both indexes list exactly the rows they should.
    pub closed spec fn wf(&self) -> bool {
        &&& self@.no_duplicates()
        &&& forall|d: usize, j: int|
            0 <= j < self.by_digest.at(d).len() ==> (#[trigger] self.by_digest.at(d)[j])
                < self@.len()
        &&& forall|i: int|
            0 <= i < self@.len() ==> self.by_digest.at(
                digest(#[trigger] self@[i]) as usize).contains(
                i as usize,
            )
        &&& forall|x: usize, j: int|
            0 <= j < self.by_head.at(x).len() ==> {
                let i = #[trigger] self.by_head.at(x)[j];
                i < self@.len() && self@[i as int].len() > 0 && self@[i as int][0] == x
            }
        &&& forall|i: int|
            0 <= i < self@.len() && self@[i].len() > 0 ==> self.by_head.at(
                (#[trigger] self@[i])[0],
            ).contains(i as usize)
        &&& forall|x: usize| (#[trigger] self.by_head.at(x)).no_duplicates()
    }

    pub proof fn lemma_distinct(&self)
        requires
            self.wf(),
        ensures
            self@.no_duplicates(),
            self@.len() <= usize::MAX,
    {
        assert(self.rows.len() == self.rows@.len());
    }

    pub fn new() -> (r: Self)
        ensures
            r.wf(),
            r@ == Seq::<Seq<usize>>::empty(),
    {
        let r = Table { rows: Vec::new(), by_digest: Buckets::new(), by_head: Buckets::new() };
        proof {
            assert(r@ =~= Seq::<Seq<usize>>::empty());
        }
        r
    }

    pub fn len(&self) -> (r: usize)
        ensures
            r == self@.len(),
    {
        self.rows.len()
    }

    /// Row number `i`.
    pub fn row(&self, i: usize) -> (r: &Vec<usize>)
        requires
            i < self@.len(),
        ensures
            r@ == self@[i as int],
    {
        &self.rows[i]
    }

    /// Column `j` of row number `i`.
    pub fn at(&self, i: usize, j: usize) -> (r: usize)
        requires
            i < self@.len(),
            j < self@[i as int].len(),
        ensures
            r == self@[i as int][j as int],
    {
        self.rows[i][j]
    }

    /// The number of a row, if it is there.
    pub fn find(&self, row: &[usize]) -> (r: Option<usize>)
        requires
            self.wf(),
        ensures
            match r {
                Some(i) => i < self@.len() && self@[i as int] == row@,
                None => !self@.contains(row@),
            },
    {
        let d: usize = compute_digest(row);
        let ghost n: usize = self.rows.len();
        match self.by_digest.get(d) {
            None => {
                proof {
                    if self@.contains(row@) {
                        let i = choose|i: int| 0 <= i < self@.len() && self@[i] == row@;
                        assert(self.by_digest.at(digest(self@[i]) as usize).contains(i as usize));
                    }
                }
                None
            },
            Some(list) => {
                let mut j: usize = 0;
                while j < list.len()
                    invariant
                        self.wf(),
                        j <= list@.len(),
                        list@ == self.by_digest.at(d),
                        forall|x: int| 0 <= x < j ==> self@[#[trigger] list@[x] as int] != row@,
                    decreases list@.len() - j,
                {
                    let i: usize = list[j];
                    if same_row(self.row(i), row) {
                        return Some(i);
                    }
                    j += 1;
                }
                proof {
                    if self@.contains(row@) {
                        let i = choose|i: int| 0 <= i < self@.len() && self@[i] == row@;
                        assert(i < n);
                        assert(list@.contains(i as usize));
                        let x = choose|x: int| 0 <= x < list@.len() && list@[x] == i as usize;
                        assert(self@[list@[x] as int] != row@);
                    }
                }
                None
            },
        }
    }

    /// Whether a row is there.
    pub fn has(&self, row: &[usize]) -> (r: bool)
        requires
            self.wf(),
        ensures
            r == self@.contains(row@),
    {
        match self.find(row) {
            Some(_) => true,
            None => false,
        }
    }

    /// Make sure that a row is there, and say which number it has.
    pub fn insert(&mut self, row: Vec<usize>) -> (r: usize)
        requires
            old(self).wf(),
        ensures
            final(self).wf(),
            r < final(self)@.len(),
            final(self)@[r as int] == row@,
            final(self)@ == (if old(self)@.contains(row@) {
                old(self)@
            } else {
                old(self)@.push(row@)
            }),
            forall|x: Seq<usize>| #[trigger]
                final(self)@.contains(x) <==> old(self)@.contains(x) || x == row@,
    {
        let ghost given = row@;
        let r: usize = self.place(row);
        proof {
            let a = old(self)@;
            let b = self@;
            assert forall|x: Seq<usize>| #[trigger] b.contains(x) <==> a.contains(x) || x
                == given by {
                if a.contains(x) {
                    let i = choose|i: int| 0 <= i < a.len() && a[i] == x;
                    assert(b[i] == x);
                }
                if x == given {
                    assert(b[r as int] == x);
                }
            }
        }
        r
    }

    fn place(&mut self, row: Vec<usize>) -> (r: usize)
        requires
            old(self).wf(),
        ensures
            final(self).wf(),
            r < final(self)@.len(),
            final(self)@[r as int] == row@,
            final(self)@ == (if old(self)@.contains(row@) {
                old(self)@
            } else {
                old(self)@.push(row@)
            }),
    {
        match self.find(row.as_slice()) {
            Some(i) => i,
            None => {
                let i: usize = self.rows.len();
                let d: usize = compute_digest(row.as_slice());
                self.by_digest.put(d, i);
                if row.len() > 0 {
                    self.by_head.put(row[0], i);
                }
                let ghost before = *old(self);
                let ghost key = row@;
                self.rows.push(row);
                proof {
                    assert(self@ =~= before@.push(key));
                    assert(self.by_digest.at(d) == before.by_digest.at(d).push(i));
                    assert(self.by_digest.at(d)[before.by_digest.at(d).len() as int] == i);
                    assert forall|j: int| 0 <= j < self@.len() implies self.by_digest.at(
                        digest(#[trigger] self@[j]) as usize,
                    ).contains(j as usize) by {
                        if j < i {
                            let dj = digest(before@[j]) as usize;
                            assert(before@[j] == self@[j]);
                            let x = choose|x: int|
                                0 <= x < before.by_digest.at(dj).len() && before.by_digest.at(dj)[x]
                                    == j;
                            assert(self.by_digest.at(dj)[x] == j);
                        }
                    }
                    assert forall|j: int| 0 <= j < self@.len() && self@[j].len() > 0
                        implies self.by_head.at(
                        (#[trigger] self@[j])[0],
                    ).contains(j as usize) by {
                        let h = self@[j][0];
                        if j < i {
                            assert(before@[j] == self@[j]);
                            let x = choose|x: int|
                                0 <= x < before.by_head.at(h).len() && before.by_head.at(h)[x] == j;
                            assert(self.by_head.at(h)[x] == j);
                        } else {
                            assert(self.by_head.at(h)[before.by_head.at(h).len() as int] == i);
                        }
                    }
                    assert forall|h: usize, j: int|
                        0 <= j < self.by_head.at(h).len() implies {
                        let x = #[trigger] self.by_head.at(h)[j];
                        x < self@.len() && self@[x as int].len() > 0 && self@[x as int][0] == h
                    } by {
                        if j < before.by_head.at(h).len() {
                            assert(self.by_head.at(h)[j] == before.by_head.at(h)[j]);
                            assert(self@[before.by_head.at(h)[j] as int]
                                == before@[before.by_head.at(
                                h,
                            )[j] as int]);
                        }
                    }
                }
                i
            },
        }
    }

    /// The numbers of the rows that begin with `x`, each once.
    pub fn heads(&self, x: usize) -> (r: Vec<usize>)
        requires
            self.wf(),
        ensures
            r@.no_duplicates(),
            forall|j: int|
                0 <= j < r@.len() ==> (#[trigger] r@[j]) < self@.len() && self@[r@[j] as int].len()
                    > 0 && self@[r@[j] as int][0] == x,
            forall|i: int|
                0 <= i < self@.len() && (#[trigger] self@[i]).len() > 0 && self@[i][0] == x
                    ==> r@.contains(i as usize),
    {
        match self.by_head.get(x) {
            Some(list) => copy_row(list.as_slice()),
            None => Vec::new(),
        }
    }

    /// Column `col` of the rows that begin with `x`.
    pub fn column(&self, x: usize, col: usize) -> (r: Vec<usize>)
        requires
            self.wf(),
            forall|i: int| 0 <= i < self@.len() ==> col < (#[trigger] self@[i]).len(),
        ensures
            forall|y: usize| #[trigger]
                r@.contains(y) <==> exists|i: int|
                    0 <= i < self@.len() && (#[trigger] self@[i])[0] == x && self@[i][col as int]
                        == y,
    {
        let list = self.heads(x);
        let mut r: Vec<usize> = Vec::new();
        let mut j: usize = 0;
        while j < list.len()
            invariant
                j <= list@.len(),
                r@.len() == j,
                forall|i: int| 0 <= i < self@.len() ==> col < (#[trigger] self@[i]).len(),
                forall|z: int|
                    0 <= z < list@.len() ==> (#[trigger] list@[z]) < self@.len()
                        && self@[list@[z] as int][0] == x,
                forall|z: int| 0 <= z < j
                    ==> #[trigger] r@[z] == self@[list@[z] as int][col as int],
            decreases list@.len() - j,
        {
            let i: usize = list[j];
            r.push(self.at(i, col));
            j += 1;
        }
        proof {
            self.lemma_distinct();
            assert forall|y: usize| #[trigger] r@.contains(y) <==> exists|i: int|
                0 <= i < self@.len() && (#[trigger] self@[i])[0] == x
                    && self@[i][col as int] == y by {
                if r@.contains(y) {
                    let z = choose|z: int| 0 <= z < r@.len() && r@[z] == y;
                    assert(self@[list@[z] as int][0] == x);
                }
                if exists|i: int|
                    0 <= i < self@.len() && (#[trigger] self@[i])[0] == x && self@[i][col as int]
                        == y {
                    let i = choose|i: int|
                        0 <= i < self@.len() && (#[trigger] self@[i])[0] == x
                            && self@[i][col as int]
                            == y;
                    assert(list@.contains(i as usize));
                    let z = choose|z: int| 0 <= z < list@.len() && list@[z] == i as usize;
                    assert(r@[z] == y);
                }
            }
        }
        r
    }
}

} // verus!
