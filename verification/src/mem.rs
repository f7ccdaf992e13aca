//! Heap accounting for the fixpoint: what was allocated, what is held, and how it
//! divides among the relations.
//!
//! Tuple counts alone do not say how much memory the relations take: the size of a tuple
//! varies, and the tables beside the relations are not tuples at all. Counting at the
//! allocator sees both. The counters here are plain values; whoever installs an
//! allocator feeds them.
use std::collections::HashSet;

use vstd::prelude::*;

use crate::analysis::HybridAnalysis;
use crate::order::{
    before, is_before, lemma_before_asymmetric, lemma_before_transitive, lemma_total, name_rank,
    put_name,
};

verus! {

broadcast use vstd::std_specs::hash::group_hash_axioms;

// ---------------------------------------------------------------------------
// Counting allocations
// ---------------------------------------------------------------------------

/// Running totals over the allocations of a process. They wrap as machine words do.
#[derive(Clone, Copy, Debug, PartialEq, Eq, Structural)]
pub struct Counting {
    /// Bytes currently allocated and not yet freed.
    pub live: usize,
    /// High-water mark of `live` since it was last reset.
    pub peak: usize,
    /// Allocation calls so far.
    pub allocs: usize,
    /// Bytes ever handed out, freed or not.
    pub allocated: usize,
}

impl Counting {
    pub open spec fn zero() -> Counting {
        Counting { live: 0, peak: 0, allocs: 0, allocated: 0 }
    }

    pub fn new() -> (r: Self)
        ensures
            r == Self::zero(),
    {
        Counting { live: 0, peak: 0, allocs: 0, allocated: 0 }
    }

    /// Bytes currently allocated and not yet freed.
    pub fn live(&self) -> (r: usize)
        ensures
            r == self.live,
    {
        self.live
    }

    /// High-water mark of the live bytes since the last reset.
    pub fn peak(&self) -> (r: usize)
        ensures
            r == self.peak,
    {
        self.peak
    }

    /// Allocation calls so far.
    pub fn allocs(&self) -> (r: usize)
        ensures
            r == self.allocs,
    {
        self.allocs
    }

    /// Bytes ever handed out, freed or not.
    pub fn allocated(&self) -> (r: usize)
        ensures
            r == self.allocated,
    {
        self.allocated
    }

    /// Drop the high-water mark back to the live bytes.
    pub fn reset_peak(&mut self)
        ensures
            *final(self) == (Counting { peak: old(self).live, ..*old(self) }),
    {
        self.peak = self.live;
    }

    /// The totals after one allocation.
    pub open spec fn after_alloc(self, size: usize) -> Counting {
        let live = self.live.wrapping_add(size);
        Counting {
            live,
            peak: if live > self.peak {
                live
            } else {
                self.peak
            },
            allocs: self.allocs.wrapping_add(1),
            allocated: self.allocated.wrapping_add(size),
        }
    }

    /// The totals after one release.
    pub open spec fn after_free(self, size: usize) -> Counting {
        Counting { live: self.live.wrapping_sub(size), ..self }
    }

    /// Record one allocation and raise the high-water mark.
    pub fn note_alloc(&mut self, size: usize)
        ensures
            *final(self) == old(self).after_alloc(size),
    {
        self.live = self.live.wrapping_add(size);
        if self.live > self.peak {
            self.peak = self.live;
        }
        self.allocs = self.allocs.wrapping_add(1);
        self.allocated = self.allocated.wrapping_add(size);
    }

    /// Record one release.
    pub fn note_free(&mut self, size: usize)
        ensures
            *final(self) == old(self).after_free(size),
    {
        self.live = self.live.wrapping_sub(size);
    }

    /// Record that an allocation changed its size: a release and an allocation.
    pub fn note_realloc(&mut self, from: usize, to: usize)
        ensures
            *final(self) == old(self).after_free(from).after_alloc(to),
    {
        self.note_free(from);
        self.note_alloc(to);
    }
}

/// The high-water mark is never below the live bytes, and allocating and releasing the
/// same size leaves the live bytes as they were.
pub proof fn law_peak_bounds_live(c: Counting, size: usize)
    requires
        c.live <= c.peak,
    ensures
        c.after_alloc(size).live <= c.after_alloc(size).peak,
        c.peak <= c.after_alloc(size).peak,
        c.after_alloc(size).after_free(size).live == c.live,
{
}

/// What one piece of work cost, in bytes.
#[derive(Clone, Copy, Debug, PartialEq, Eq, Structural)]
pub struct Usage {
    /// Bytes still held when the work finished.
    pub retained: usize,
    /// High-water mark over the work, above where it started.
    pub peak: usize,
    /// Allocation calls made during the work.
    pub allocs: usize,
}

impl Default for Usage {
    fn default() -> (r: Self)
        ensures
            r == (Usage { retained: 0, peak: 0, allocs: 0 }),
    {
        Usage { retained: 0, peak: 0, allocs: 0 }
    }
}

/// `a - b`, or nothing where that is negative.
pub open spec fn above(a: usize, b: usize) -> usize {
    if a >= b {
        (a - b) as usize
    } else {
        0
    }
}

/// What the work between two readings cost. The high-water mark is to be reset at the
/// first.
pub fn measure(start: &Counting, end: &Counting) -> (r: Usage)
    requires
        start.allocs <= end.allocs,
    ensures
        r.retained == above(end.live, start.live),
        r.peak == above(end.peak, start.live),
        r.allocs == end.allocs - start.allocs,
{
    Usage {
        retained: end.live.saturating_sub(start.live),
        peak: end.peak.saturating_sub(start.live),
        allocs: end.allocs - start.allocs,
    }
}

// ---------------------------------------------------------------------------
// What is behind the tuples
// ---------------------------------------------------------------------------

/// One allocation: where it is and how many bytes its contents take.
#[derive(Clone, Copy, Debug, PartialEq, Eq, Structural)]
pub struct Block {
    pub address: usize,
    pub bytes: usize,
}

/// The bytes of two machine words: the counts that a shared allocation carries before
/// its contents.
pub open spec fn header_bytes() -> nat {
    2 * (usize::BITS as nat / 8)
}

/// What an allocation costs: its contents and its header.
pub open spec fn cost(b: Block) -> nat {
    header_bytes() + b.bytes as nat
}

/// The bytes of the header of an allocation.
pub fn header() -> (r: usize)
    ensures
        r == header_bytes(),
{
    2 * (usize::BITS as usize / 8)
}

/// The allocations counted so far, and the bytes since the last restart.
#[verifier::ext_equal]
pub struct Tally {
    pub seen: Set<usize>,
    pub bytes: nat,
}

impl Tally {
    /// A shared allocation counts once, with its header.
    pub open spec fn count(self, b: Block) -> Tally {
        if self.seen.contains(b.address) {
            self
        } else {
            Tally { seen: self.seen.insert(b.address), bytes: self.bytes + cost(b) }
        }
    }

    /// Nothing counted yet.
    pub open spec fn fresh() -> Tally {
        Tally { seen: Set::empty(), bytes: 0 }
    }

    /// The bytes start over, and what was seen stays seen.
    pub open spec fn restarted(self) -> Tally {
        Tally { bytes: 0, ..self }
    }

    pub open spec fn count_all(self, blocks: Seq<Block>) -> Tally
        decreases blocks.len(),
    {
        if blocks.len() == 0 {
            self
        } else {
            self.count_all(blocks.drop_last()).count(blocks.last())
        }
    }
}

/// Counting goes on where it stopped.
proof fn lemma_count_parts(t: Tally, a: Seq<Block>, b: Seq<Block>)
    ensures
        t.count_all(a + b) == t.count_all(a).count_all(b),
        t.count_all(a).bytes <= t.count_all(a + b).bytes,
    decreases b.len(),
{
    if b.len() == 0 {
        assert(a + b =~= a);
    } else {
        lemma_count_parts(t, a, b.drop_last());
        assert((a + b).drop_last() =~= a + b.drop_last());
    }
}

/// Sums the heap behind a set of tuples, counting each shared allocation once.
pub struct Payload {
    seen: HashSet<usize>,
    bytes: usize,
}

impl View for Payload {
    type V = Tally;

    closed spec fn view(&self) -> Tally {
        Tally { seen: self.seen@, bytes: self.bytes as nat }
    }
}

impl Default for Payload {
    fn default() -> (r: Self)
        ensures
            r@ == Tally::fresh(),
    {
        let r = Payload { seen: HashSet::new(), bytes: 0 };
        proof {
            assert(r@ =~= Tally::fresh());
        }
        r
    }
}

impl Payload {
    /// Bytes counted since the last [`Payload::restart`].
    pub fn bytes(&self) -> (r: usize)
        ensures
            r == self@.bytes,
    {
        self.bytes
    }

    /// Zero the byte count and keep what was seen: everything walked so far stops
    /// counting, and still does not count again.
    pub fn restart(&mut self)
        ensures
            final(self)@ == old(self)@.restarted(),
    {
        self.bytes = 0;
    }

    /// Count one allocation with its header, once. Tells whether it was new.
    pub fn allocation(&mut self, address: usize, bytes: usize) -> (r: bool)
        requires
            old(self)@.bytes + cost(Block { address, bytes }) <= usize::MAX,
        ensures
            r == !old(self)@.seen.contains(address),
            final(self)@ == old(self)@.count(Block { address, bytes }),
    {
        let new = self.seen.insert(address);
        if new {
            self.bytes = self.bytes + (header() + bytes);
        }
        proof {
            assert(self@ =~= old(self)@.count(Block { address, bytes }));
        }
        new
    }

    /// Walk every tuple of one relation.
    pub fn walk_all<T: HeapWalk>(&mut self, rel: &[T])
        requires
            old(self)@.bytes + weigh(all_blocks(rel@)) <= usize::MAX,
        ensures
            final(self)@ == old(self)@.count_all(all_blocks(rel@)),
    {
        let ghost start = self@;
        let mut i: usize = 0;
        while i < rel.len()
            invariant
                i <= rel@.len(),
                self@ == start.count_all(all_blocks(rel@.take(i as int))),
                start.bytes + weigh(all_blocks(rel@)) <= usize::MAX,
            decreases rel@.len() - i,
        {
            proof {
                let (was, now) = (rel@.take(i as int), rel@.take(i + 1));
                let x = rel@[i as int].blocks();
                assert(now.drop_last() =~= was);
                assert(now.last() == rel@[i as int]);
                lemma_count_parts(start, all_blocks(was), x);
                lemma_weight_grows(rel@, i + 1);
                lemma_weigh_parts(all_blocks(was), x);
                lemma_count_weighs(start, all_blocks(was));
            }
            rel[i].walk(self);
            i += 1;
        }
        proof {
            assert(rel@.take(i as int) =~= rel@);
        }
    }
}

/// What some allocations cost, each counted as often as it occurs.
pub open spec fn weigh(blocks: Seq<Block>) -> nat
    decreases blocks.len(),
{
    if blocks.len() == 0 {
        0
    } else {
        weigh(blocks.drop_last()) + cost(blocks.last())
    }
}

proof fn lemma_weigh_parts(a: Seq<Block>, b: Seq<Block>)
    ensures
        weigh(a + b) == weigh(a) + weigh(b),
    decreases b.len(),
{
    if b.len() == 0 {
        assert(a + b =~= a);
    } else {
        lemma_weigh_parts(a, b.drop_last());
        assert((a + b).drop_last() =~= a + b.drop_last());
    }
}

proof fn lemma_count_weighs(t: Tally, blocks: Seq<Block>)
    ensures
        t.count_all(blocks).bytes <= t.bytes + weigh(blocks),
    decreases blocks.len(),
{
    if blocks.len() > 0 {
        lemma_count_weighs(t, blocks.drop_last());
    }
}

proof fn lemma_weight_grows<T: HeapWalk>(rel: Seq<T>, n: int)
    requires
        0 <= n <= rel.len(),
    ensures
        weigh(all_blocks(rel.take(n))) <= weigh(all_blocks(rel)),
    decreases rel.len() - n,
{
    if n < rel.len() {
        lemma_weight_grows(rel, n + 1);
        assert(rel.take(n + 1).drop_last() =~= rel.take(n));
        lemma_weigh_parts(all_blocks(rel.take(n)), rel.take(n + 1).last().blocks());
    } else {
        assert(rel.take(n) =~= rel);
    }
}

/// A value that may own heap beyond its own size.
pub trait HeapWalk {
    /// The allocations behind it, in the order they are walked.
    spec fn blocks(&self) -> Seq<Block>;

    fn walk(&self, p: &mut Payload)
        requires
            old(p)@.bytes + weigh(self.blocks()) <= usize::MAX,
        ensures
            final(p)@ == old(p)@.count_all(self.blocks()),
    ;
}

/// The allocations behind the tuples of a relation.
pub open spec fn all_blocks<T: HeapWalk>(rel: Seq<T>) -> Seq<Block>
    decreases rel.len(),
{
    if rel.len() == 0 {
        Seq::empty()
    } else {
        all_blocks(rel.drop_last()) + rel.last().blocks()
    }
}

impl HeapWalk for Block {
    open spec fn blocks(&self) -> Seq<Block> {
        seq![*self]
    }

    fn walk(&self, p: &mut Payload) {
        proof {
            assert(seq![*self].drop_last() =~= Seq::<Block>::empty());
            assert(weigh(seq![*self].drop_last()) == 0);
            assert(p@.count_all(seq![*self].drop_last()) == p@);
        }
        p.allocation(self.address, self.bytes);
    }
}

/// A number owns nothing.
impl HeapWalk for usize {
    open spec fn blocks(&self) -> Seq<Block> {
        Seq::empty()
    }

    fn walk(&self, p: &mut Payload) {
    }
}

impl<A: HeapWalk> HeapWalk for (A,) {
    open spec fn blocks(&self) -> Seq<Block> {
        self.0.blocks()
    }

    fn walk(&self, p: &mut Payload) {
        self.0.walk(p);
    }
}

impl<A: HeapWalk, B: HeapWalk> HeapWalk for (A, B) {
    open spec fn blocks(&self) -> Seq<Block> {
        self.0.blocks() + self.1.blocks()
    }

    fn walk(&self, p: &mut Payload) {
        let ghost start = p@;
        proof {
            lemma_weigh_parts(self.0.blocks(), self.1.blocks());
            lemma_count_parts(start, self.0.blocks(), self.1.blocks());
            lemma_count_weighs(start, self.0.blocks());
        }
        self.0.walk(p);
        self.1.walk(p);
    }
}

impl<A: HeapWalk, B: HeapWalk, C: HeapWalk> HeapWalk for (A, B, C) {
    open spec fn blocks(&self) -> Seq<Block> {
        self.0.blocks() + self.1.blocks() + self.2.blocks()
    }

    fn walk(&self, p: &mut Payload) {
        let ghost start = p@;
        proof {
            lemma_weigh_parts(self.0.blocks(), self.1.blocks());
            lemma_count_parts(start, self.0.blocks(), self.1.blocks());
            lemma_count_weighs(start, self.0.blocks());
            lemma_weigh_parts(self.0.blocks() + self.1.blocks(), self.2.blocks());
            lemma_count_parts(start, self.0.blocks() + self.1.blocks(), self.2.blocks());
            lemma_count_weighs(start, self.0.blocks() + self.1.blocks());
        }
        self.0.walk(p);
        self.1.walk(p);
        self.2.walk(p);
    }
}

impl<A: HeapWalk, B: HeapWalk, C: HeapWalk, D: HeapWalk> HeapWalk for (A, B, C, D) {
    open spec fn blocks(&self) -> Seq<Block> {
        self.0.blocks() + self.1.blocks() + self.2.blocks() + self.3.blocks()
    }

    fn walk(&self, p: &mut Payload) {
        let ghost start = p@;
        proof {
            lemma_weigh_parts(self.0.blocks(), self.1.blocks());
            lemma_count_parts(start, self.0.blocks(), self.1.blocks());
            lemma_count_weighs(start, self.0.blocks());
            lemma_weigh_parts(self.0.blocks() + self.1.blocks(), self.2.blocks());
            lemma_count_parts(start, self.0.blocks() + self.1.blocks(), self.2.blocks());
            lemma_count_weighs(start, self.0.blocks() + self.1.blocks());
            lemma_weigh_parts(self.0.blocks() + self.1.blocks() + self.2.blocks(), self.3.blocks());
            lemma_count_parts(start, self.0.blocks() + self.1.blocks() + self.2.blocks(),
                self.3.blocks());
            lemma_count_weighs(start, self.0.blocks() + self.1.blocks() + self.2.blocks());
        }
        self.0.walk(p);
        self.1.walk(p);
        self.2.walk(p);
        self.3.walk(p);
    }
}

/// One of the allocations is at the address.
pub open spec fn among(blocks: Seq<Block>, address: usize) -> bool {
    exists|j: int| 0 <= j < blocks.len() && (#[trigger] blocks[j]).address == address
}

/// What was walked before a restart costs nothing after it: walking the same
/// allocations again counts no byte.
pub proof fn law_nothing_counts_twice(t: Tally, blocks: Seq<Block>, again: Seq<Block>)
    requires
        forall|i: int| 0 <= i < again.len() ==> among(blocks, (#[trigger] again[i]).address),
    ensures
        t.count_all(blocks).count_all(again) == t.count_all(blocks),
    decreases again.len(),
{
    if again.len() > 0 {
        law_nothing_counts_twice(t, blocks, again.drop_last());
        let last = again[again.len() - 1];
        let j = choose|j: int|
            0 <= j < blocks.len() && (#[trigger] blocks[j]).address == last.address;
        lemma_counted(t, blocks, j);
    }
}

proof fn lemma_counted(t: Tally, blocks: Seq<Block>, j: int)
    requires
        0 <= j < blocks.len(),
    ensures
        t.count_all(blocks).seen.contains(blocks[j].address),
    decreases blocks.len(),
{
    if j < blocks.len() - 1 {
        lemma_counted(t, blocks.drop_last(), j);
        assert(blocks.drop_last()[j] == blocks[j]);
    }
}

// ---------------------------------------------------------------------------
// The relations of an analysis
// ---------------------------------------------------------------------------

/// The derived relations, each with the number of its tuples.
pub open spec fn relation_sizes(h: &HybridAnalysis) -> Seq<(Seq<char>, nat)> {
    seq![
        ("sig_target"@, h.sig_target@.len()),
        ("sig_size"@, h.sig_size@.len()),
        ("mono_target"@, h.mono_target@.len()),
        ("eff_direct"@, h.eff_direct@.len()),
        ("critical"@, h.critical@.len()),
        ("known_proc"@, h.known_proc@.len()),
        ("is_called"@, h.is_called@.len()),
        ("uncalled"@, h.uncalled@.len()),
        ("edge"@, h.edge@.len()),
        ("points"@, h.points@.len()),
        ("path_used"@, h.path_used@.len()),
        ("crit_origin"@, h.crit_origin@.len()),
        ("pending"@, h.pending@.len()),
        ("can_propagate"@, h.can_propagate@.len()),
        ("carries"@, h.carries@.len()),
        ("decisive_var"@, h.decisive_var@.len()),
        ("slot_from_formal"@, h.slot_from_formal@.len()),
        ("will_propagate"@, h.will_propagate@.len()),
        ("stuck"@, h.stuck@.len()),
        ("crit_operand"@, h.crit_operand@.len()),
        ("call_crit"@, h.call_crit@.len()),
        ("load_crit"@, h.load_crit@.len()),
        ("store_crit"@, h.store_crit@.len()),
        ("index_crit"@, h.index_crit@.len()),
        ("decisive_slot"@, h.decisive_slot@.len()),
        ("crit_sig"@, h.crit_sig@.len()),
        ("free_root"@, h.free_root@.len()),
        ("pub_root"@, h.pub_root@.len()),
        ("pub_edge"@, h.edges_to(h.points@.len() as int).len()),
        ("pub_points"@, h.pub_points@.len()),
        ("root_map"@, h.root_map@.len()),
        ("blocked"@, h.blocked@.len()),
        ("top"@, h.top@.len()),
        ("resolve"@, h.resolve@.len()),
        ("index_undecidable"@, h.index_undecidable@.len()),
        ("index_acc"@, h.index_acc@.len()),
        ("adequate"@, h.adequate@.len()),
        ("settled"@, h.settled@.len()),
    ]
}

pub open spec fn total(sizes: Seq<(Seq<char>, nat)>) -> nat
    decreases sizes.len(),
{
    if sizes.len() == 0 {
        0
    } else {
        total(sizes.drop_last()) + sizes.last().1
    }
}

/// The tuples of all derived relations together.
pub open spec fn tuple_total(h: &HybridAnalysis) -> nat {
    total(relation_sizes(h))
}

pub open spec fn named(v: Seq<(&'static str, usize)>) -> Seq<(Seq<char>, nat)> {
    Seq::new(v.len(), |i: int| (v[i].0@, v[i].1 as nat))
}

/// Every derived relation with the number of its tuples.
pub fn idb_relations(h: &HybridAnalysis) -> (r: Vec<(&'static str, usize)>)
    ensures
        named(r@) == relation_sizes(h),
{
    let edges: usize = h.pub_edges().len();
    let mut r: Vec<(&'static str, usize)> = Vec::new();
    r.push(("sig_target", h.sig_target.len()));
    r.push(("sig_size", h.sig_size.len()));
    r.push(("mono_target", h.mono_target.len()));
    r.push(("eff_direct", h.eff_direct.len()));
    r.push(("critical", h.critical.len()));
    r.push(("known_proc", h.known_proc.len()));
    r.push(("is_called", h.is_called.len()));
    r.push(("uncalled", h.uncalled.len()));
    r.push(("edge", h.edge.len()));
    r.push(("points", h.points.len()));
    r.push(("path_used", h.path_used.len()));
    r.push(("crit_origin", h.crit_origin.len()));
    r.push(("pending", h.pending.len()));
    r.push(("can_propagate", h.can_propagate.len()));
    r.push(("carries", h.carries.len()));
    r.push(("decisive_var", h.decisive_var.len()));
    r.push(("slot_from_formal", h.slot_from_formal.len()));
    r.push(("will_propagate", h.will_propagate.len()));
    r.push(("stuck", h.stuck.len()));
    r.push(("crit_operand", h.crit_operand.len()));
    r.push(("call_crit", h.call_crit.len()));
    r.push(("load_crit", h.load_crit.len()));
    r.push(("store_crit", h.store_crit.len()));
    r.push(("index_crit", h.index_crit.len()));
    r.push(("decisive_slot", h.decisive_slot.len()));
    r.push(("crit_sig", h.crit_sig.len()));
    r.push(("free_root", h.free_root.len()));
    r.push(("pub_root", h.pub_root.len()));
    r.push(("pub_edge", edges));
    r.push(("pub_points", h.pub_points.len()));
    r.push(("root_map", h.root_map.len()));
    r.push(("blocked", h.blocked.len()));
    r.push(("top", h.top.len()));
    r.push(("resolve", h.resolve.len()));
    r.push(("index_undecidable", h.index_undecidable.len()));
    r.push(("index_acc", h.index_acc.len()));
    r.push(("adequate", h.adequate.len()));
    r.push(("settled", h.settled.len()));
    proof {
        assert(named(r@) =~= relation_sizes(h));
    }
    r
}

/// All derived tuples together.
pub fn idb_tuples(h: &HybridAnalysis) -> (r: usize)
    requires
        tuple_total(h) <= usize::MAX,
    ensures
        r == tuple_total(h),
{
    let list = idb_relations(h);
    let ghost all = relation_sizes(h);
    let mut r: usize = 0;
    let mut i: usize = 0;
    while i < list.len()
        invariant
            i <= list@.len(),
            all == named(list@),
            r == total(all.take(i as int)),
            total(all) <= usize::MAX,
        decreases list@.len() - i,
    {
        proof {
            assert(all.take(i + 1).drop_last() =~= all.take(i as int));
            assert(all.take(i + 1).last() == all[i as int]);
            lemma_total_grows(all, i + 1);
        }
        r = r + list[i].1;
        i += 1;
    }
    proof {
        assert(all.take(i as int) =~= all);
    }
    r
}

proof fn lemma_total_grows(sizes: Seq<(Seq<char>, nat)>, n: int)
    requires
        0 <= n <= sizes.len(),
    ensures
        total(sizes.take(n)) <= total(sizes),
    decreases sizes.len() - n,
{
    if n < sizes.len() {
        lemma_total_grows(sizes, n + 1);
        assert(sizes.take(n + 1).drop_last() =~= sizes.take(n));
    } else {
        assert(sizes.take(n) =~= sizes);
    }
}

/// What is behind the derived tuples and was not there before them: count the
/// allocations of the facts, start over, and count those of what was derived. An
/// allocation that a derived tuple shares with a fact costs nothing.
pub fn payload_of(before: &Vec<Block>, after: &Vec<Block>) -> (r: usize)
    requires
        weigh(before@) <= usize::MAX,
        weigh(after@) <= usize::MAX,
    ensures
        r == Tally::fresh().count_all(before@).restarted().count_all(after@).bytes,
{
    let mut p = Payload::default();
    proof {
        lemma_own_blocks(before@);
        lemma_own_blocks(after@);
    }
    p.walk_all(before.as_slice());
    p.restart();
    p.walk_all(after.as_slice());
    p.bytes()
}

/// The allocations behind allocations are those themselves.
proof fn lemma_own_blocks(blocks: Seq<Block>)
    ensures
        all_blocks(blocks) == blocks,
    decreases blocks.len(),
{
    if blocks.len() > 0 {
        lemma_own_blocks(blocks.drop_last());
        assert(blocks =~= blocks.drop_last() + seq![blocks.last()]);
    }
}

/// What was derived costs nothing where every allocation behind it was there before.
pub proof fn law_shared_payload_is_free(before: Seq<Block>, after: Seq<Block>)
    requires
        forall|i: int| 0 <= i < after.len() ==> among(before, (#[trigger] after[i]).address),
    ensures
        Tally::fresh().count_all(before).restarted().count_all(after).bytes == 0,
{
    let t = Tally::fresh().count_all(before);
    assert forall|i: int| 0 <= i < after.len() implies t.seen.contains(
        (#[trigger] after[i]).address,
    ) by {
        let j = choose|j: int|
            0 <= j < before.len() && (#[trigger] before[j]).address == after[i].address;
        assert(among(before, after[i].address));
        lemma_counted(Tally::fresh(), before, j);
    }
    lemma_nothing_new(t.restarted(), after);
}

proof fn lemma_nothing_new(t: Tally, blocks: Seq<Block>)
    requires
        forall|i: int| 0 <= i < blocks.len() ==> t.seen.contains((#[trigger] blocks[i]).address),
    ensures
        t.count_all(blocks) == t,
    decreases blocks.len(),
{
    if blocks.len() > 0 {
        lemma_nothing_new(t, blocks.drop_last());
        assert(t.seen.contains(blocks[blocks.len() - 1].address));
    }
}

/// Where the retained bytes went: the lists of tuples and what is behind the tuples were
/// measured, and the rest is what the tables beside them take.
pub fn split(vecs: usize, payload: usize, usage: &Usage) -> (r: (usize, usize, usize))
    requires
        vecs + payload <= usize::MAX,
    ensures
        r.0 == vecs,
        r.1 == payload,
        r.2 == above(usage.retained, (vecs + payload) as usize),
{
    (vecs, payload, usage.retained.saturating_sub(vecs + payload))
}

// ---------------------------------------------------------------------------
// The table of a report
// ---------------------------------------------------------------------------

/// A line of the table: a relation, its tuples, and the bytes of its list.
pub type Row = (&'static str, usize, usize);

/// `a` stands above `b`: more bytes come first, and then the names decide.
pub open spec fn above_row(a: Row, b: Row) -> bool {
    a.2 > b.2 || (a.2 == b.2 && before(name_rank(a.0@), name_rank(b.0@)))
}

/// The lines of the same name and bytes as `x`.
pub open spec fn like(x: Row) -> spec_fn(Row) -> bool {
    |y: Row| y.0@ == x.0@ && y.2 == x.2
}

/// The lines of the relations that hold a tuple.
pub open spec fn in_use(rels: Seq<Row>) -> Seq<Row> {
    rels.filter(|x: Row| x.1 > 0)
}

/// `r` has the lines of `rows` and no others, from the top down. Lines of the same name
/// and bytes keep their order.
pub open spec fn tabled(r: Seq<Row>, rows: Seq<Row>) -> bool {
    &&& r.to_multiset() == rows.to_multiset()
    &&& forall|i: int, j: int|
        0 <= i < j < r.len() ==> !above_row(#[trigger] r[j], #[trigger] r[i])
    &&& forall|x: Row| #[trigger] r.filter(like(x)) == rows.filter(like(x))
}

fn is_above(a: &Row, b: &Row) -> (r: bool)
    ensures
        r == above_row(*a, *b),
{
    if a.2 == b.2 {
        let (left, right) = (a.0.to_owned(), b.0.to_owned());
        let mut x: Vec<usize> = Vec::new();
        let mut y: Vec<usize> = Vec::new();
        put_name(&mut x, &left);
        put_name(&mut y, &right);
        proof {
            assert(x@ =~= name_rank(a.0@));
            assert(y@ =~= name_rank(b.0@));
        }
        is_before(&x, &y)
    } else {
        a.2 > b.2
    }
}

proof fn lemma_above(x: Row, a: Row, b: Row)
    requires
        above_row(x, a),
    ensures
        !above_row(a, x),
        !like(x)(a),
        !above_row(b, a) ==> above_row(x, b),
{
    let (n, p, q) = (name_rank(x.0@), name_rank(a.0@), name_rank(b.0@));
    if before(n, p) {
        lemma_before_asymmetric(n, p);
        lemma_total(p, q);
        if before(p, q) {
            lemma_before_transitive(n, p, q);
        }
    }
}

proof fn lemma_none(rows: Seq<Row>, x: Row)
    requires
        forall|i: int| 0 <= i < rows.len() ==> !like(x)(#[trigger] rows[i]),
    ensures
        rows.filter(like(x)) == Seq::<Row>::empty(),
    decreases rows.len(),
{
    reveal(Seq::filter);
    if rows.len() > 0 {
        lemma_none(rows.drop_last(), x);
    }
}

/// A line goes below those that it does not stand above.
proof fn lemma_insert(r: Seq<Row>, rows: Seq<Row>, row: Row, p: int)
    requires
        tabled(r, rows),
        0 <= p <= r.len(),
        forall|j: int| p <= j < r.len() ==> above_row(row, #[trigger] r[j]),
        forall|i: int| 0 <= i < p ==> !above_row(row, #[trigger] r[i]),
    ensures
        tabled(r.insert(p, row), rows.push(row)),
{
    let (a, b, one) = (r.take(p), r.skip(p), seq![row]);
    let new = r.insert(p, row);
    assert(r =~= a + b);
    assert(new =~= a + one + b);
    assert(rows.push(row) =~= rows + one);
    assert(new.to_multiset() =~= rows.push(row).to_multiset()) by {
        vstd::seq_lib::lemma_multiset_commutative(a, b);
        vstd::seq_lib::lemma_multiset_commutative(a, one);
        vstd::seq_lib::lemma_multiset_commutative(a + one, b);
        vstd::seq_lib::lemma_multiset_commutative(rows, one);
    }
    assert forall|i: int, j: int| 0 <= i < j < new.len() implies !above_row(
        #[trigger] new[j],
        #[trigger] new[i],
    ) by {
        if i == p {
            lemma_above(row, r[j - 1], row);
        } else if j == p {
            assert(new[i] == r[i]);
        } else {
            let (k, l) = (if i < p { i } else { i - 1 }, if j < p { j } else { j - 1 });
            assert(new[i] == r[k] && new[j] == r[l]);
        }
    }
    assert forall|x: Row| #[trigger] new.filter(like(x)) == rows.push(row).filter(like(x)) by {
        Seq::filter_distributes_over_add(a, b, like(x));
        Seq::filter_distributes_over_add(a, one, like(x));
        Seq::filter_distributes_over_add(a + one, b, like(x));
        Seq::filter_distributes_over_add(rows, one, like(x));
        assert(r.filter(like(x)) == rows.filter(like(x)));
        if like(x)(row) {
            assert forall|i: int| 0 <= i < b.len() implies !like(x)(#[trigger] b[i]) by {
                assert(b[i] == r[p + i]);
                lemma_above(row, b[i], row);
            }
            lemma_none(b, x);
            assert(new.filter(like(x)) =~= rows.push(row).filter(like(x)));
        } else {
            assert forall|i: int| 0 <= i < one.len() implies !like(x)(#[trigger] one[i]) by {}
            lemma_none(one, x);
            assert(new.filter(like(x)) =~= rows.push(row).filter(like(x)));
        }
    }
}

/// How many lines of a table stand above `row`, or beside it.
fn find_row(r: &Vec<Row>, row: &Row) -> (p: usize)
    requires
        forall|i: int, j: int|
            0 <= i < j < r@.len() ==> !above_row(#[trigger] r@[j], #[trigger] r@[i]),
    ensures
        p <= r@.len(),
        forall|j: int| p <= j < r@.len() ==> above_row(*row, #[trigger] r@[j]),
        forall|i: int| 0 <= i < p ==> !above_row(*row, #[trigger] r@[i]),
{
    let mut p: usize = r.len();
    while p > 0
        invariant
            p <= r@.len(),
            forall|i: int, j: int|
                0 <= i < j < r@.len() ==> !above_row(#[trigger] r@[j], #[trigger] r@[i]),
            forall|j: int| p <= j < r@.len() ==> above_row(*row, #[trigger] r@[j]),
        decreases p,
    {
        if !is_above(row, &r[p - 1]) {
            proof {
                assert forall|i: int| 0 <= i < p implies !above_row(*row, #[trigger] r@[i]) by {
                    if i < p - 1 && above_row(*row, r@[i]) {
                        lemma_above(*row, r@[i], r@[p - 1]);
                    }
                }
            }
            return p;
        }
        p -= 1;
    }
    p
}

/// The lines of the table: the relations that hold a tuple, by bytes from the largest
/// down, and then by name.
pub fn listing(rels: Vec<(&'static str, usize, usize)>) -> (r: Vec<(&'static str, usize, usize)>)
    ensures
        tabled(r@, in_use(rels@)),
{
    let mut r: Vec<(&'static str, usize, usize)> = Vec::new();
    let mut i: usize = 0;
    proof {
        reveal(Seq::filter);
        assert(in_use(rels@.take(0)) =~= r@);
    }
    while i < rels.len()
        invariant
            i <= rels@.len(),
            tabled(r@, in_use(rels@.take(i as int))),
        decreases rels@.len() - i,
    {
        let row = rels[i];
        proof {
            reveal(Seq::filter);
            assert(rels@.take(i + 1).drop_last() =~= rels@.take(i as int));
            assert(rels@.take(i + 1).last() == row);
        }
        if row.1 > 0 {
            let p: usize = find_row(&r, &row);
            proof {
                lemma_insert(r@, in_use(rels@.take(i as int)), row, p as int);
            }
            r.insert(p, row);
        }
        i += 1;
    }
    proof {
        assert(rels@.take(i as int) =~= rels@);
    }
    r
}

/// The tuples of all lines together.
pub open spec fn row_tuples(rows: Seq<Row>) -> nat
    decreases rows.len(),
{
    if rows.len() == 0 {
        0
    } else {
        row_tuples(rows.drop_last()) + rows.last().1 as nat
    }
}

/// The bytes of all lines together.
pub open spec fn row_bytes(rows: Seq<Row>) -> nat
    decreases rows.len(),
{
    if rows.len() == 0 {
        0
    } else {
        row_bytes(rows.drop_last()) + rows.last().2 as nat
    }
}

proof fn lemma_rows_grow(rows: Seq<Row>, n: int)
    requires
        0 <= n <= rows.len(),
    ensures
        row_tuples(rows.take(n)) <= row_tuples(rows),
        row_bytes(rows.take(n)) <= row_bytes(rows),
    decreases rows.len() - n,
{
    if n < rows.len() {
        lemma_rows_grow(rows, n + 1);
        assert(rows.take(n + 1).drop_last() =~= rows.take(n));
    } else {
        assert(rows.take(n) =~= rows);
    }
}

/// The two totals of a table: its tuples and its bytes.
pub fn totals(rows: &Vec<(&'static str, usize, usize)>) -> (r: (usize, usize))
    requires
        row_tuples(rows@) <= usize::MAX,
        row_bytes(rows@) <= usize::MAX,
    ensures
        r.0 == row_tuples(rows@),
        r.1 == row_bytes(rows@),
{
    let mut tuples: usize = 0;
    let mut bytes: usize = 0;
    let mut i: usize = 0;
    while i < rows.len()
        invariant
            i <= rows@.len(),
            tuples == row_tuples(rows@.take(i as int)),
            bytes == row_bytes(rows@.take(i as int)),
            row_tuples(rows@) <= usize::MAX,
            row_bytes(rows@) <= usize::MAX,
        decreases rows@.len() - i,
    {
        proof {
            lemma_rows_grow(rows@, i + 1);
            assert(rows@.take(i + 1).drop_last() =~= rows@.take(i as int));
            assert(rows@.take(i + 1).last() == rows@[i as int]);
        }
        tuples = tuples + rows[i].1;
        bytes = bytes + rows[i].2;
        i += 1;
    }
    proof {
        assert(rows@.take(i as int) =~= rows@);
    }
    (tuples, bytes)
}

} // verus!
