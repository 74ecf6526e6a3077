//! A sparse bit set: the bit space is cut into blocks of 65536 bits, and only
//! the blocks that hold a set bit are stored, sorted by their index.

pub mod words;
pub mod raw_vec;
pub mod mask;
pub mod ops;

use vstd::prelude::*;
use crate::word::Word;
use self::words::Words;
use self::raw_vec::{RawVec, large, entries_wf, entries_has, entries_rank, has_entry, block_of, block_count, lemma_block_of, lemma_entries_has_at, lemma_entries_rank_grows, lemma_entries_rank_bounds};
use self::words::lemma_split_index;

verus! {

/// The number of bits of the whole bit space.
pub const LARGE_BIT_MAX: u64 = 0x8000_0000_0000_0000u64;

/// The number of bits of one block.
pub const SHORT_BIT_MAX: u64 = 65536u64;


/// A block of the bit space together with its index: it covers the bits
/// from `index * 65536` up to `(index + 1) * 65536`.
#[derive(Clone, Debug, PartialEq, Eq)]
pub struct Entry<T> {
    pub index: usize,
    pub block: Words<T>,
}

impl<T: Word> Entry<T> {
    /// Pairs a block with its index.
    pub fn new(index: usize, block: Words<T>) -> (r: Self)
        ensures
            r.index == index,
            r.block == block,
    {
        Entry { index, block }
    }

    /// The bit offset of this entry.
    pub fn offset(&self) -> (r: u64)
        requires
            self.index < 0x8000_0000_0000,
        ensures
            r == self.index * 65536,
    {
        self.index as u64 * SHORT_BIT_MAX
    }
}


/// A set of bit positions below `2^63`.
#[derive(Clone, Debug, PartialEq, Eq)]
pub struct BitSet<T>(pub RawVec<Entry<T>>);

impl<T: Word> BitSet<T> {
    /// The set is well formed.
    pub open spec fn wf(&self) -> bool {
        self.0.wf()
    }

    /// Position `i` is in the set.
    pub open spec fn has(&self, i: nat) -> bool {
        self.0.has(i)
    }

    /// The number of positions in the set below `i`.
    pub open spec fn rank(&self, i: nat) -> nat {
        self.0.rank(i)
    }

    /// The number of positions in the set.
    pub open spec fn count(&self) -> nat {
        self.0.rank(large())
    }

    /// Creates an empty set.
    pub fn new() -> (r: Self)
        ensures
            r.wf(),
            forall|i: nat| !#[trigger] r.has(i),
    {
        BitSet(RawVec::<Entry<T>>::new())
    }

    /// Shrinks the internal storage.
    pub fn shrink_to_fit(&mut self)
        ensures
            final(self).0.ones == old(self).0.ones,
            final(self).0.bits@ == old(self).0.bits@,
    {
        self.0.shrink_to_fit()
    }

    /// Reads bit `i`.
    pub fn get(&self, i: u64) -> (r: bool)
        requires
            self.wf(),
            i < large(),
        ensures
            r == self.has(i as nat),
    {
        self.0.access(i)
    }

    /// Adds `i`; returns whether it was already there.
    pub fn insert(&mut self, i: u64) -> (prev: bool)
        requires
            old(self).wf(),
            i < large(),
            i / 65536 <= usize::MAX,
        ensures
            final(self).wf(),
            prev == old(self).has(i as nat),
            forall|j: nat| #[trigger] final(self).has(j) == (j == i || old(self).has(j)),
            final(self).count() == old(self).count() + if prev { 0nat } else { 1nat },
    {
        let ghost before = *self;
        let prev = self.0.insert(i);
        proof {
            lemma_rank_set(before, *self, i as nat, large());
        }
        prev
    }

    /// Removes `i`; returns whether it was there.
    pub fn remove(&mut self, i: u64) -> (prev: bool)
        requires
            old(self).wf(),
            i < large(),
        ensures
            final(self).wf(),
            prev == old(self).has(i as nat),
            forall|j: nat| #[trigger] final(self).has(j) == (j != i && old(self).has(j)),
            final(self).count() + (if prev { 1nat } else { 0nat }) == old(self).count(),
    {
        let ghost before = *self;
        let prev = self.0.remove(i);
        proof {
            lemma_rank_clear(before, *self, i as nat, large());
        }
        prev
    }

    /// Reads bit `i`.
    pub fn access(&self, i: u64) -> (r: bool)
        requires
            self.wf(),
            i < large(),
        ensures
            r == self.has(i as nat),
    {
        self.0.access(i)
    }

    /// The number of bits of the bit space.
    pub fn size(&self) -> (r: u64)
        ensures
            r == large(),
    {
        self.0.size()
    }

    /// The number of set bits.
    pub fn count1(&self) -> (r: u64)
        requires
            self.wf(),
        ensures
            r == self.count(),
    {
        self.0.count1()
    }

    /// The number of unset bits.
    pub fn count0(&self) -> (r: u64)
        requires
            self.wf(),
        ensures
            r == large() - self.count(),
    {
        self.0.count0()
    }

    /// The number of set bits below `i`.
    pub fn rank1(&self, i: u64) -> (r: u64)
        requires
            self.wf(),
            i <= large(),
        ensures
            r == self.rank(i as nat),
    {
        self.0.rank1(i)
    }

    /// The number of unset bits below `i`.
    pub fn rank0(&self, i: u64) -> (r: u64)
        requires
            self.wf(),
            i <= large(),
        ensures
            r == i - self.rank(i as nat),
    {
        self.0.rank0(i)
    }

    /// `rank1(i) - rank0(i)`, when the ones are at least as many as the zeros.
    pub fn excess1(&self, i: u64) -> (r: u64)
        requires
            self.wf(),
            i <= large(),
            self.rank(i as nat) >= i - self.rank(i as nat),
        ensures
            r == self.rank(i as nat) - (i - self.rank(i as nat)),
    {
        self.0.excess1(i)
    }

    /// `rank0(i) - rank1(i)`, when the zeros are at least as many as the ones.
    pub fn excess0(&self, i: u64) -> (r: u64)
        requires
            self.wf(),
            i <= large(),
            i - self.rank(i as nat) >= self.rank(i as nat),
        ensures
            r == (i - self.rank(i as nat)) - self.rank(i as nat),
    {
        self.0.excess0(i)
    }

    /// The position of the set bit with `n` set bits before it.
    pub fn select1(&self, n: u64) -> (r: u64)
        requires
            self.wf(),
            n < self.count(),
        ensures
            r < large(),
            self.has(r as nat),
            self.rank(r as nat) == n,
    {
        self.0.select1(n)
    }

    /// The position of the unset bit with `n` unset bits before it.
    pub fn select0(&self, n: u64) -> (r: u64)
        requires
            self.wf(),
            n < large() - self.count(),
        ensures
            r < large(),
            !self.has(r as nat),
            r - self.rank(r as nat) == n,
    {
        self.0.select0(n)
    }

    /// The intersection with `rhs`, as the entries of both sets' common blocks.
    pub fn and(&self, rhs: &BitSet<T>) -> (r: Vec<Entry<T>>)
        requires
            self.wf(),
            rhs.wf(),
        ensures
            entries_wf(r@),
            forall|q: nat| #[trigger] has_entry(r@, q) == (has_entry(self.0.bits@, q) && has_entry(rhs.0.bits@, q)),
            forall|p: nat| #[trigger] entries_has(r@, p) == (self.has(p) && rhs.has(p)),
    {
        self.0.and(&rhs.0)
    }

    /// The union with `rhs`, as the entries of the blocks of either set.
    pub fn or(&self, rhs: &BitSet<T>) -> (r: Vec<Entry<T>>)
        requires
            self.wf(),
            rhs.wf(),
        ensures
            entries_wf(r@),
            forall|q: nat| #[trigger] has_entry(r@, q) == (has_entry(self.0.bits@, q) || has_entry(rhs.0.bits@, q)),
            forall|p: nat| #[trigger] entries_has(r@, p) == (self.has(p) || rhs.has(p)),
    {
        self.0.or(&rhs.0)
    }

    /// The symmetric difference with `rhs`, as the entries of the blocks of
    /// either set.
    pub fn xor(&self, rhs: &BitSet<T>) -> (r: Vec<Entry<T>>)
        requires
            self.wf(),
            rhs.wf(),
        ensures
            entries_wf(r@),
            forall|q: nat| #[trigger] has_entry(r@, q) == (has_entry(self.0.bits@, q) || has_entry(rhs.0.bits@, q)),
            forall|p: nat| #[trigger] entries_has(r@, p) == (self.has(p) != rhs.has(p)),
    {
        self.0.xor(&rhs.0)
    }

    /// The set of the given positions.
    pub fn from_slice(bits: &[u64]) -> (r: Self)
        requires
            forall|k: int| 0 <= k < bits@.len() ==> #[trigger] bits@[k] < large() && bits@[k] / 65536
                <= usize::MAX,
        ensures
            r.wf(),
            forall|j: nat| #[trigger] r.has(j) <==> exists|k: int| 0 <= k < bits@.len() && bits@[k] == j,
    {
        BitSet(RawVec::<Entry<T>>::from_slice(bits))
    }

    /// The set of the given positions.
    pub fn from_vec(bits: Vec<u64>) -> (r: Self)
        requires
            forall|k: int| 0 <= k < bits@.len() ==> #[trigger] bits@[k] < large() && bits@[k] / 65536
                <= usize::MAX,
        ensures
            r.wf(),
            forall|j: nat| #[trigger] r.has(j) <==> exists|k: int| 0 <= k < bits@.len() && bits@[k] == j,
    {
        Self::from_slice(bits.as_slice())
    }

    /// The set whose blocks are the given entries, sorted by index.
    pub fn from_entries(entries: &Vec<Entry<T>>) -> (r: Self)
        requires
            entries_wf(entries@),
        ensures
            r.wf(),
            forall|p: nat| #[trigger] r.has(p) == entries_has(entries@, p),
    {
        BitSet(RawVec::<Entry<T>>::from_entries(entries))
    }

    /// The entries of the set's blocks, in order of their index.
    pub fn entries(&self) -> (r: Vec<Entry<T>>)
        requires
            self.wf(),
        ensures
            entries_wf(r@),
            forall|q: nat| #[trigger] has_entry(r@, q) == has_entry(self.0.bits@, q),
            forall|p: nat| #[trigger] entries_has(r@, p) == self.has(p),
    {
        let r = self.0.entries();
        proof {
            assert forall|q: nat| #[trigger] has_entry(r@, q) == has_entry(self.0.bits@, q) by {
                if has_entry(r@, q) {
                    let k = choose|k: int| 0 <= k < r@.len() && #[trigger] r@[k].index == q;
                    assert(self.0.bits@[k].index == q);
                }
                if has_entry(self.0.bits@, q) {
                    let k = choose|k: int| 0 <= k < self.0.bits@.len() && #[trigger] self.0.bits@[k].index == q;
                    assert(r@[k].index == q);
                }
            }
        }
        r
    }
}

impl<T: Word> BitSet<T> {
    /// The bits of the set that lie in `[start, end)`, the range cut off at
    /// the end of the bit space; empty where `end <= start`.
    pub fn get_range(&self, start: u64, end: u64) -> (r: Bits<'_, T>)
        requires
            self.wf(),
        ensures
            r.wf(),
            *r.set == *self,
            r.start == clip(start, end),
            r.end == clip(end, end),
            forall|i: nat| #[trigger] r.has(i) == (start <= i < end && self.has(i)),
    {
        let e: u64 = if end < LARGE_BIT_MAX { end } else { LARGE_BIT_MAX };
        let s: u64 = if start < e { start } else { e };
        Bits { set: self, start: s, end: e }
    }
}

/// Where a range's bound `b` stands once the range, which ends at `end`, is
/// cut off at the end of the bit space and at its own end.
pub open spec fn clip(b: u64, end: u64) -> nat {
    let e: nat = if end < large() { end as nat } else { large() };
    if b < e { b as nat } else { e }
}

/// The bits of a set that lie in `[start, end)`.
#[derive(Clone, Debug)]
pub struct Bits<'a, T> {
    pub set: &'a BitSet<T>,
    pub start: u64,
    pub end: u64,
}

impl<'a, T: Word> Bits<'a, T> {
    /// The range lies in the bit space, over a well-formed set.
    pub open spec fn wf(&self) -> bool {
        &&& self.set.wf()
        &&& self.start <= self.end
        &&& self.end <= large()
    }

    /// Position `i` is in the range and in the set.
    pub open spec fn has(&self, i: nat) -> bool {
        self.start <= i < self.end && self.set.has(i)
    }

    /// The number of positions of the set in the range.
    pub open spec fn count(&self) -> nat {
        (self.set.rank(self.end as nat) - self.set.rank(self.start as nat)) as nat
    }

    /// Reads bit `i`: set where it is in the range and in the set.
    pub fn get(&self, i: u64) -> (r: bool)
        requires
            self.wf(),
        ensures
            r == self.has(i as nat),
    {
        if self.start <= i && i < self.end {
            self.set.access(i)
        } else {
            false
        }
    }

    /// The bits of this range that also lie in `[start, end)`.
    pub fn get_range(&self, start: u64, end: u64) -> (r: Bits<'a, T>)
        requires
            self.wf(),
        ensures
            r.wf(),
            r.set == self.set,
            forall|i: nat| #[trigger] r.has(i) == (self.has(i) && start <= i < end),
            r.end == if end < self.end { end } else { self.end },
            r.start == ({
                let lo = if start < self.start { self.start } else { start };
                if lo < r.end { lo } else { r.end }
            }),
    {
        let lo: u64 = if start < self.start { self.start } else { start };
        let hi: u64 = if end < self.end { end } else { self.end };
        let s: u64 = if lo < hi { lo } else { hi };
        Bits { set: self.set, start: s, end: hi }
    }

    /// The number of set bits in the range.
    pub fn count1(&self) -> (r: u64)
        requires
            self.wf(),
        ensures
            r == self.count(),
    {
        proof {
            lemma_entries_rank_bounds(self.set.0.bits@, self.start as nat, self.end as nat);
        }
        self.set.rank1(self.end) - self.set.rank1(self.start)
    }
}

impl<T: Word> Default for BitSet<T> {
    fn default() -> (r: Self)
        ensures
            r.wf(),
            forall|i: nat| !#[trigger] r.has(i),
    {
        Self::new()
    }
}


/// No position of the blocks from `lo` up to `hi` is set when no entry has
/// an index in between.
proof fn lemma_no_bits_between<T: Word>(es: Seq<Entry<T>>, lo: nat, hi: nat)
    requires
        entries_wf(es),
        forall|k: int| 0 <= k < es.len() ==> #[trigger] es[k].index < lo || es[k].index >= hi,
    ensures
        forall|p: nat| lo * 65536 <= p < hi * 65536 ==> !#[trigger] entries_has(es, p),
{
    assert forall|p: nat| lo * 65536 <= p < hi * 65536 implies !#[trigger] entries_has(es, p) by {
        let q = p / 65536;
        lemma_split_index(p, 65536, q, p % 65536);
        assert(lo <= q < hi) by (nonlinear_arith)
            requires
                lo * 65536 <= p < hi * 65536,
                p == q * 65536 + p % 65536,
                p % 65536 < 65536,
        ;
        if has_entry(es, q) {
            let k = choose|k: int| 0 <= k < es.len() && #[trigger] es[k].index == q;
            assert(es[k].index < lo || es[k].index >= hi);
        }
        Words::<T>(None).lemma_has_absent();
    }
}

/// Over positions that are not set the rank does not grow.
proof fn lemma_rank_flat<T: Word>(es: Seq<Entry<T>>, lo: nat, hi: nat)
    requires
        lo <= hi,
        forall|p: nat| lo <= p < hi ==> !#[trigger] entries_has(es, p),
    ensures
        entries_rank(es, hi) == entries_rank(es, lo),
    decreases hi,
{
    if hi > lo {
        lemma_rank_flat(es, lo, (hi - 1) as nat);
        assert(!entries_has(es, (hi - 1) as nat));
    }
}

/// Every set position of the entries, in increasing order.
pub fn iterate<T: Word>(entries: &Vec<Entry<T>>) -> (r: Vec<u64>)
    requires
        entries_wf(entries@),
    ensures
        forall|a: int, b: int| 0 <= a < b < r@.len() ==> r@[a] < r@[b],
        forall|p: nat| #[trigger] r@.contains(p as u64) && p < large() <==> entries_has(entries@, p),
        r@.len() == entries_rank(entries@, large()),
{
    let ghost es = entries@;
    let mut out: Vec<u64> = Vec::new();
    let mut k: usize = 0;
    let ghost mut c: nat = 0;
    while k < entries.len()
        invariant
            es == entries@,
            entries_wf(es),
            k <= es.len(),
            c % 65536 == 0,
            c <= large(),
            forall|m: int| 0 <= m < k ==> (#[trigger] es[m].index + 1) * 65536 <= c,
            k < es.len() ==> c <= es[k as int].index * 65536,
            forall|a: int, b: int| 0 <= a < b < out@.len() ==> out@[a] < out@[b],
            forall|t: int| 0 <= t < out@.len() ==> #[trigger] out@[t] < c,
            forall|p: nat| p < c ==> (#[trigger] out@.contains(p as u64) <==> entries_has(es, p)),
            out@.len() == entries_rank(es, c),
        decreases es.len() - k,
    {
        let entry = &entries[k];
        let base = entry.offset();
        proof {
            assert(entry.index < block_count());
            let lo = c / 65536;
            lemma_split_index(c, 65536, lo, 0);
            assert forall|m: int| 0 <= m < es.len() implies #[trigger] es[m].index < lo || es[m].index
                >= es[k as int].index by {
                if m < k {
                    assert((es[m].index + 1) * 65536 <= c);
                } else if m > k {
                    assert(es[k as int].index < es[m].index);
                }
            }
            lemma_no_bits_between(es, lo, es[k as int].index as nat);
            lemma_rank_flat(es, c, base as nat);
            assert forall|p: nat| p < base implies (#[trigger] out@.contains(p as u64) <==> entries_has(es, p)) by {
                if p >= c {
                    if out@.contains(p as u64) {
                        let t = choose|t: int| 0 <= t < out@.len() && out@[t] == p as u64;
                        assert(out@[t] < c);
                    }
                }
            }
            lemma_block_of(es, k as int);
        }
        let mut i: u64 = 0;
        if entry.block.0.is_some() {
            while i < 65536
                invariant
                    es == entries@,
                    entries_wf(es),
                    k < es.len(),
                    entry == es[k as int],
                    base == es[k as int].index * 65536,
                    block_of(es, es[k as int].index as nat) == es[k as int].block,
                    es[k as int].index < block_count(),
                    i <= 65536,
                    forall|a: int, b: int| 0 <= a < b < out@.len() ==> out@[a] < out@[b],
                    forall|t: int| 0 <= t < out@.len() ==> #[trigger] out@[t] < base + i,
                    forall|p: nat| p < base + i ==> (#[trigger] out@.contains(p as u64) <==> entries_has(es, p)),
                    out@.len() == entries_rank(es, (base + i) as nat),
                decreases 65536 - i,
            {
                let ghost before = out@;
                proof {
                    lemma_entries_has_at(es, es[k as int].index as nat, i as nat);
                    assert(entries_rank(es, (base + i + 1) as nat) == entries_rank(es, (base + i) as nat)
                        + if entries_has(es, (base + i) as nat) { 1nat } else { 0nat });
                }
                if entry.block.access(i) {
                    out.push(base + i);
                    proof {
                        assert forall|p: nat| p < base + i + 1 implies (#[trigger] out@.contains(p as u64) <==> entries_has(es, p)) by {
                            if p < base + i {
                                if out@.contains(p as u64) {
                                    let t = choose|t: int| 0 <= t < out@.len() && out@[t] == p as u64;
                                    if t < before.len() {
                                        assert(before[t] == p as u64);
                                    }
                                }
                                if before.contains(p as u64) {
                                    let t = choose|t: int| 0 <= t < before.len() && before[t] == p as u64;
                                    assert(out@[t] == p as u64);
                                }
                            } else {
                                assert(out@[before.len() as int] == p as u64);
                            }
                        }
                    }
                } else {
                    proof {
                        assert forall|p: nat| p < base + i + 1 implies (#[trigger] out@.contains(p as u64) <==> entries_has(es, p)) by {
                            if p == base + i && out@.contains(p as u64) {
                                let t = choose|t: int| 0 <= t < out@.len() && out@[t] == p as u64;
                                assert(out@[t] < base + i);
                            }
                        }
                    }
                }
                i = i + 1;
            }
        } else {
            proof {
                es[k as int].block.lemma_has_absent();
                assert forall|p: nat| base <= p < base + 65536 implies !#[trigger] entries_has(es, p) by {
                    lemma_split_index(p, 65536, es[k as int].index as nat, (p - base) as nat);
                }
                lemma_rank_flat(es, base as nat, (base + 65536) as nat);
                assert forall|p: nat| p < base + 65536 implies (#[trigger] out@.contains(p as u64) <==> entries_has(es, p)) by {
                    if p >= base {
                        lemma_split_index(p, 65536, es[k as int].index as nat, (p - base) as nat);
                        if out@.contains(p as u64) {
                            let t = choose|t: int| 0 <= t < out@.len() && out@[t] == p as u64;
                            assert(out@[t] < base);
                        }
                    }
                }
            }
        }
        proof {
            c = (base + 65536) as nat;
            assert(c == (es[k as int].index + 1) * 65536);
            assert forall|m: int| 0 <= m < k + 1 implies (#[trigger] es[m].index + 1) * 65536 <= c by {
                if m < k {
                    assert(es[m].index < es[k as int].index);
                }
            }
            if k + 1 < es.len() {
                assert(es[k as int].index < es[k + 1].index);
            }
        }
        k = k + 1;
    }
    proof {
        let lo = c / 65536;
        lemma_split_index(c, 65536, lo, 0);
        assert forall|m: int| 0 <= m < es.len() implies #[trigger] es[m].index < lo || es[m].index
            >= block_count() by {
            assert((es[m].index + 1) * 65536 <= c);
        }
        lemma_no_bits_between(es, lo, block_count());
        lemma_rank_flat(es, c, large());
        assert forall|p: nat| #[trigger] out@.contains(p as u64) && p < large() <==> entries_has(es, p) by {
            if p < c {
            } else {
                if out@.contains(p as u64) && p < large() {
                    let t = choose|t: int| 0 <= t < out@.len() && out@[t] == p as u64;
                    assert(out@[t] < c);
                }
            }
        }
    }
    out
}


/// `select1` inverts `rank1` on a bit set: two positions in the set with as
/// many positions of the set before them are the same position; the same
/// holds of positions out of the set, `select0` and `rank0`.
pub proof fn lemma_select_rank<T: Word>(set: BitSet<T>, p: nat, q: nat)
    requires
        set.has(p) == set.has(q),
        set.has(p) ==> set.rank(p) == set.rank(q),
        !set.has(p) ==> p - set.rank(p) == q - set.rank(q),
    ensures
        p == q,
{
    if p < q {
        lemma_entries_rank_grows(set.0.bits@, p, q);
    } else if q < p {
        lemma_entries_rank_grows(set.0.bits@, q, p);
    }
}


/// Setting one position adds one to the ranks above it, unless it was set.
proof fn lemma_rank_set<T: Word>(a: BitSet<T>, b: BitSet<T>, i: nat, n: nat)
    requires
        forall|j: nat| #[trigger] b.has(j) == (j == i || a.has(j)),
    ensures
        b.rank(n) == a.rank(n) + if i < n && !a.has(i) { 1nat } else { 0nat },
    decreases n,
{
    if n > 0 {
        lemma_rank_set(a, b, i, (n - 1) as nat);
        assert(b.has((n - 1) as nat) == ((n - 1) as nat == i || a.has((n - 1) as nat)));
    }
}

/// Clearing one position removes one from the ranks above it, if it was set.
proof fn lemma_rank_clear<T: Word>(a: BitSet<T>, b: BitSet<T>, i: nat, n: nat)
    requires
        forall|j: nat| #[trigger] b.has(j) == (j != i && a.has(j)),
    ensures
        b.rank(n) + (if i < n && a.has(i) { 1nat } else { 0nat }) == a.rank(n),
    decreases n,
{
    if n > 0 {
        lemma_rank_clear(a, b, i, (n - 1) as nat);
        assert(b.has((n - 1) as nat) == ((n - 1) as nat != i && a.has((n - 1) as nat)));
    }
}

/// Removing a position right after inserting it finds it there, and gives
/// back the set without it: the set itself when the position was not in it.
pub proof fn lemma_insert_remove<T: Word>(a: BitSet<T>, b: BitSet<T>, c: BitSet<T>, i: nat)
    requires
        forall|j: nat| #[trigger] b.has(j) == (j == i || a.has(j)),
        forall|j: nat| #[trigger] c.has(j) == (j != i && b.has(j)),
    ensures
        b.has(i),
        forall|j: nat| #[trigger] c.has(j) == (j != i && a.has(j)),
        !a.has(i) ==> forall|j: nat| #[trigger] c.has(j) == a.has(j),
{
    assert(b.has(i));
    assert forall|j: nat| #[trigger] c.has(j) == (j != i && a.has(j)) by {
        assert(b.has(j) == (j == i || a.has(j)));
    }
}

} // verus!
