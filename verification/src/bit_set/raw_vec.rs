//! The storage behind a bit set: a vector of blocks with the number of their
//! set bits. A bit set keeps a sparse list of entries sorted by index
//! (`RawVec<Entry<T>>`); `pages` keeps every block up to the last one
//! (`RawVec<Words<T>>`), and `dense` every word (`RawVec<T>`).

use vstd::prelude::*;
use crate::word::{Word, search};
use crate::bit_set::Entry;
use crate::bit_set::words::{Words, address, lemma_split_index};
use crate::bit_set::mask::copy_entry;

pub mod pages;
pub mod dense;

verus! {

/// The number of blocks of the bit space.
pub open spec fn block_count() -> nat {
    0x8000_0000_0000
}

/// The number of bits of the bit space.
pub open spec fn large() -> nat {
    0x8000_0000_0000_0000
}

/// Entries appear by strictly increasing index.
pub open spec fn sorted<T>(es: Seq<Entry<T>>) -> bool {
    forall|a: int, b: int| 0 <= a < b < es.len() ==> #[trigger] es[a].index < #[trigger] es[b].index
}

/// The set bits held by the first `m` entries.
pub open spec fn sum_counts<T: Word>(es: Seq<Entry<T>>, m: nat) -> nat
    decreases m,
{
    if m == 0 {
        0
    } else {
        sum_counts(es, (m - 1) as nat) + es[m - 1].block.count()
    }
}

/// Some entry has index `q`.
pub open spec fn has_entry<T>(es: Seq<Entry<T>>, q: nat) -> bool {
    exists|k: int| 0 <= k < es.len() && #[trigger] es[k].index == q
}

/// The block with index `q`: the one of its entry, or an absent block.
pub open spec fn block_of<T: Word>(es: Seq<Entry<T>>, q: nat) -> Words<T> {
    if has_entry(es, q) {
        es[choose|k: int| 0 <= k < es.len() && #[trigger] es[k].index == q].block
    } else {
        Words(None)
    }
}

/// Bit `i` of the bit space described by `es`.
pub open spec fn entries_has<T: Word>(es: Seq<Entry<T>>, i: nat) -> bool {
    i < large() && block_of(es, i / 65536).has(i % 65536)
}

/// The number of set bits below `i` in the bit space described by `es`.
pub open spec fn entries_rank<T: Word>(es: Seq<Entry<T>>, i: nat) -> nat
    decreases i,
{
    if i == 0 {
        0
    } else {
        entries_rank(es, (i - 1) as nat) + if entries_has(es, (i - 1) as nat) { 1nat } else { 0nat }
    }
}

/// Entries sorted by index, each with a well-formed block.
pub open spec fn entries_wf<T: Word>(es: Seq<Entry<T>>) -> bool {
    &&& sorted(es)
    &&& forall|k: int| 0 <= k < es.len() ==> (#[trigger] es[k]).block.wf()
    &&& forall|k: int| 0 <= k < es.len() ==> (#[trigger] es[k]).index < block_count()
}

/// The block of an entry is the block with its index.
pub proof fn lemma_block_of<T: Word>(es: Seq<Entry<T>>, k: int)
    requires
        sorted(es),
        0 <= k < es.len(),
    ensures
        has_entry(es, es[k].index as nat),
        block_of(es, es[k].index as nat) == es[k].block,
{
    let q = es[k].index as nat;
    assert(has_entry(es, q));
    let c = choose|c: int| 0 <= c < es.len() && #[trigger] es[c].index == q;
    if c < k {
        assert(es[c].index < es[k].index);
    } else if c > k {
        assert(es[k].index < es[c].index);
    }
}

/// Positions of one block: the bit space at `q * 65536 + r` is bit `r` of block `q`.
pub proof fn lemma_entries_has_at<T: Word>(es: Seq<Entry<T>>, q: nat, r: nat)
    requires
        r < 65536,
        q < block_count(),
    ensures
        entries_has(es, q * 65536 + r) == block_of(es, q).has(r),
{
    lemma_split_index(q * 65536 + r, 65536, q, r);
}

/// Inside block `q` the rank grows with the rank of that block.
pub proof fn lemma_rank_in_block<T: Word>(es: Seq<Entry<T>>, q: nat, r: nat)
    requires
        r <= 65536,
        q < block_count(),
    ensures
        entries_rank(es, q * 65536 + r) == entries_rank(es, q * 65536) + block_of(es, q).rank(r),
    decreases r,
{
    if r > 0 {
        lemma_rank_in_block(es, q, (r - 1) as nat);
        lemma_entries_has_at(es, q, (r - 1) as nat);
    }
}

/// Before block `q` the rank is the sum of the counts of the entries before it.
pub proof fn lemma_rank_prefix<T: Word>(es: Seq<Entry<T>>, q: nat, m: nat)
    requires
        entries_wf(es),
        q <= block_count(),
        m <= es.len(),
        forall|k: int| 0 <= k < m ==> #[trigger] es[k].index < q,
        forall|k: int| m <= k < es.len() ==> #[trigger] es[k].index >= q,
    ensures
        entries_rank(es, q * 65536) == sum_counts(es, m),
    decreases q,
{
    if q == 0 {
        if m > 0 {
            assert(es[0].index < 0);
        }
    } else {
        let p = (q - 1) as nat;
        let m2: nat = if m > 0 && es[m - 1].index == p { (m - 1) as nat } else { m };
        assert forall|k: int| 0 <= k < m2 implies #[trigger] es[k].index < p by {
            if k < m - 1 {
                assert(es[k].index < es[m - 1].index);
            }
        }
        lemma_rank_prefix(es, p, m2);
        lemma_rank_in_block(es, p, 65536);
        if m2 < m {
            lemma_block_of(es, (m - 1) as int);
        } else {
            assert(!has_entry(es, p)) by {
                if has_entry(es, p) {
                    let c = choose|c: int| 0 <= c < es.len() && #[trigger] es[c].index == p;
                    if c < m && c < m - 1 {
                        assert(es[c].index < es[m - 1].index);
                    }
                }
            }
            Words::<T>(None).lemma_count();
        }
    }
}

/// Ranks are monotone and bounded by the position.
pub proof fn lemma_entries_rank_bounds<T: Word>(es: Seq<Entry<T>>, i: nat, n: nat)
    requires
        i <= n,
    ensures
        entries_rank(es, i) <= entries_rank(es, n),
        entries_rank(es, n) - entries_rank(es, i) <= n - i,
    decreases n,
{
    if n > i {
        lemma_entries_rank_bounds(es, i, (n - 1) as nat);
    }
}

/// A set bit counts in the ranks of the positions after it, an unset bit in
/// the counts of unset bits after it.
pub proof fn lemma_entries_rank_grows<T: Word>(es: Seq<Entry<T>>, p: nat, q: nat)
    requires
        p < q,
    ensures
        entries_rank(es, q) >= entries_rank(es, p) + if entries_has(es, p) { 1nat } else { 0nat },
        q - entries_rank(es, q) >= (p - entries_rank(es, p)) + if entries_has(es, p) { 0nat } else { 1nat },
    decreases q,
{
    if q > p + 1 {
        lemma_entries_rank_grows(es, p, (q - 1) as nat);
        lemma_entries_rank_bounds(es, (q - 1) as nat, q);
    }
}

/// The whole bit space holds as many set bits as the sum of the counts.
pub proof fn lemma_total<T: Word>(es: Seq<Entry<T>>)
    requires
        entries_wf(es),
    ensures
        entries_rank(es, large()) == sum_counts(es, es.len()),
        sum_counts(es, es.len()) <= large(),
{
    lemma_rank_prefix(es, block_count(), es.len());
    lemma_entries_rank_bounds(es, 0, large());
}

/// Calls `Vec::shrink_to_fit`, which gives back the capacity that the
/// elements do not use and keeps the elements as they are.
#[verifier::external_body]
fn shrink_vec<T>(v: &mut Vec<T>)
    ensures
        final(v)@ == old(v)@,
{
    v.shrink_to_fit()
}

/// Blocks of a bit space, with the number of their set bits.
#[derive(Clone, Debug, PartialEq, Eq)]
pub struct RawVec<B> {
    pub ones: u64,
    pub bits: Vec<B>,
}

impl<T: Word> RawVec<Entry<T>> {
    /// The intersection of two bit spaces, block by block.
    pub fn and(&self, rhs: &RawVec<Entry<T>>) -> (r: Vec<Entry<T>>)
        requires
            self.wf(),
            rhs.wf(),
        ensures
            entries_wf(r@),
            forall|q: nat| #[trigger] has_entry(r@, q) == (has_entry(self.bits@, q) && has_entry(rhs.bits@, q)),
            forall|p: nat| #[trigger] entries_has(r@, p) == (self.has(p) && rhs.has(p)),
    {
        crate::bit_set::mask::and(&self.bits, &rhs.bits)
    }

    /// The union of two bit spaces, block by block.
    pub fn or(&self, rhs: &RawVec<Entry<T>>) -> (r: Vec<Entry<T>>)
        requires
            self.wf(),
            rhs.wf(),
        ensures
            entries_wf(r@),
            forall|q: nat| #[trigger] has_entry(r@, q) == (has_entry(self.bits@, q) || has_entry(rhs.bits@, q)),
            forall|p: nat| #[trigger] entries_has(r@, p) == (self.has(p) || rhs.has(p)),
    {
        crate::bit_set::mask::or(&self.bits, &rhs.bits)
    }

    /// The symmetric difference of two bit spaces, block by block.
    pub fn xor(&self, rhs: &RawVec<Entry<T>>) -> (r: Vec<Entry<T>>)
        requires
            self.wf(),
            rhs.wf(),
        ensures
            entries_wf(r@),
            forall|q: nat| #[trigger] has_entry(r@, q) == (has_entry(self.bits@, q) || has_entry(rhs.bits@, q)),
            forall|p: nat| #[trigger] entries_has(r@, p) == (self.has(p) != rhs.has(p)),
    {
        crate::bit_set::mask::xor(&self.bits, &rhs.bits)
    }

    /// Entries sorted, non-empty and in range; `ones` counts their set bits.
    pub open spec fn wf(&self) -> bool {
        &&& entries_wf(self.bits@)
        &&& forall|k: int| 0 <= k < self.bits@.len() ==> (#[trigger] self.bits@[k]).block.count() > 0
        &&& self.ones == sum_counts(self.bits@, self.bits@.len())
    }

    /// Bit `i`.
    pub open spec fn has(&self, i: nat) -> bool {
        entries_has(self.bits@, i)
    }

    /// The number of set bits below `i`.
    pub open spec fn rank(&self, i: nat) -> nat {
        entries_rank(self.bits@, i)
    }

    /// Creates an empty bit space.
    pub fn new() -> (r: Self)
        ensures
            r.wf(),
            forall|i: nat| !#[trigger] r.has(i),
            r.ones == 0,
    {
        let r: Self = RawVec { ones: 0, bits: Vec::new() };
        proof {
            assert forall|i: nat| !#[trigger] r.has(i) by {
                assert(!has_entry(r.bits@, i / 65536));
                Words::<T>(None).lemma_has_absent();
            }
        }
        r
    }

    fn new_unchecked(ones: u64, bits: Vec<Entry<T>>) -> (r: Self)
        ensures
            r.ones == ones,
            r.bits == bits,
    {
        RawVec { ones, bits }
    }

    /// Shrinks the internal vector.
    pub fn shrink_to_fit(&mut self)
        ensures
            final(self).ones == old(self).ones,
            final(self).bits@ == old(self).bits@,
    {
        shrink_vec(&mut self.bits);
    }

    /// Converts a bit index into a block index and an offset in that block.
    fn address(&self, i: u64) -> (r: (u64, u64))
        requires
            i < 0x8000_0000_0000_0000,
        ensures
            r.0 == i / 65536,
            r.1 == i % 65536,
            r.0 < block_count(),
            i == r.0 * 65536 + r.1,
    {
        (i / crate::bit_set::SHORT_BIT_MAX, i % crate::bit_set::SHORT_BIT_MAX)
    }

    /// Finds the position of the entry with `index`, or where it would be inserted.
    fn search_entry(&self, index: u64) -> (r: Result<usize, usize>)
        requires
            sorted(self.bits@),
        ensures
            r matches Ok(p) ==> p < self.bits@.len() && self.bits@[p as int].index == index,
            r matches Err(p) ==> p <= self.bits@.len() && (forall|k: int|
                0 <= k < p ==> #[trigger] self.bits@[k].index < index) && (forall|k: int|
                p <= k < self.bits@.len() ==> #[trigger] self.bits@[k].index > index),
    {
        let mut lo: usize = 0;
        let mut hi: usize = self.bits.len();
        while lo < hi
            invariant
                lo <= hi <= self.bits@.len(),
                sorted(self.bits@),
                forall|k: int| 0 <= k < lo ==> #[trigger] self.bits@[k].index < index,
                forall|k: int| hi <= k < self.bits@.len() ==> #[trigger] self.bits@[k].index > index,
            decreases hi - lo,
        {
            let mid = lo + (hi - lo) / 2;
            let key = self.bits[mid].index as u64;
            if key == index {
                return Ok(mid);
            } else if key < index {
                lo = mid + 1;
            } else {
                hi = mid;
            }
        }
        Err(lo)
    }

    /// The entry with `index`, if present.
    fn entry(&self, index: u64) -> (r: Option<&Entry<T>>)
        requires
            sorted(self.bits@),
        ensures
            r matches Some(e) ==> e.index == index && has_entry(self.bits@, index as nat)
                && block_of(self.bits@, index as nat) == e.block,
            r is None ==> !has_entry(self.bits@, index as nat),
    {
        match self.search_entry(index) {
            Ok(p) => {
                proof {
                    lemma_block_of(self.bits@, p as int);
                }
                Some(&self.bits[p])
            },
            Err(p) => {
                proof {
                    if has_entry(self.bits@, index as nat) {
                        let c = choose|c: int|
                            0 <= c < self.bits@.len() && #[trigger] self.bits@[c].index == index;
                        assert(c < p || c >= p);
                    }
                }
                None
            },
        }
    }

    /// The number of bits of the bit space.
    pub fn size(&self) -> (r: u64)
        ensures
            r == large(),
    {
        crate::bit_set::LARGE_BIT_MAX
    }

    /// Reads bit `i`.
    pub fn access(&self, i: u64) -> (r: bool)
        requires
            self.wf(),
            i < large(),
        ensures
            r == self.has(i as nat),
    {
        let (index, offset) = self.address(i);
        match self.entry(index) {
            Some(e) => e.block.access(offset),
            None => {
                proof {
                    Words::<T>(None).lemma_has_absent();
                }
                false
            },
        }
    }

    /// The number of set bits.
    pub fn count1(&self) -> (r: u64)
        requires
            self.wf(),
        ensures
            r == self.rank(large()),
    {
        proof {
            lemma_total(self.bits@);
        }
        self.ones
    }

    /// The number of unset bits.
    pub fn count0(&self) -> (r: u64)
        requires
            self.wf(),
        ensures
            r == large() - self.rank(large()),
    {
        proof {
            lemma_total(self.bits@);
        }
        self.size() - self.ones
    }

    /// The number of set bits below `i`.
    pub fn rank1(&self, i: u64) -> (r: u64)
        requires
            self.wf(),
            i <= large(),
        ensures
            r == self.rank(i as nat),
    {
        proof {
            lemma_total(self.bits@);
        }
        let index: u64;
        let offset: u64;
        if i == crate::bit_set::LARGE_BIT_MAX {
            index = 0x8000_0000_0000;
            offset = 0;
        } else {
            let a = self.address(i);
            index = a.0;
            offset = a.1;
        }
        let mut rank: u64 = 0;
        let mut k: usize = 0;
        while k < self.bits.len() && (self.bits[k].index as u64) < index
            invariant
                self.wf(),
                k <= self.bits@.len(),
                i == index * 65536 + offset,
                offset < 65536,
                index <= block_count(),
                forall|j: int| 0 <= j < k ==> #[trigger] self.bits@[j].index < index,
                rank == sum_counts(self.bits@, k as nat),
                sum_counts(self.bits@, self.bits@.len()) <= large(),
            decreases self.bits@.len() - k,
        {
            proof {
                lemma_sum_counts_bounds(self.bits@, k as nat + 1, self.bits@.len());
            }
            rank = rank + self.bits[k].block.count1();
            k = k + 1;
        }
        proof {
            assert forall|j: int| k <= j < self.bits@.len() implies #[trigger] self.bits@[j].index >= index by {
                if j > k {
                    assert(self.bits@[k as int].index < self.bits@[j].index);
                }
            }
            lemma_rank_prefix(self.bits@, index as nat, k as nat);
            lemma_sum_counts_bounds(self.bits@, k as nat, self.bits@.len());
        }
        if k < self.bits.len() && self.bits[k].index as u64 == index {
            let page = &self.bits[k];
            proof {
                lemma_rank_in_block(self.bits@, index as nat, offset as nat);
                lemma_block_of(self.bits@, k as int);
                page.block.lemma_rank_bounds(offset as nat, 65536);
                lemma_sum_counts_bounds(self.bits@, k as nat + 1, self.bits@.len());
            }
            rank = rank + page.block.rank1(offset);
        } else {
            proof {
                if index < block_count() {
                    lemma_rank_in_block(self.bits@, index as nat, offset as nat);
                    assert(!has_entry(self.bits@, index as nat)) by {
                        if has_entry(self.bits@, index as nat) {
                            let c = choose|c: int|
                                0 <= c < self.bits@.len() && #[trigger] self.bits@[c].index == index;
                            if c > k {
                                assert(self.bits@[k as int].index < self.bits@[c].index);
                            }
                        }
                    }
                    Words::<T>(None).lemma_count();
                }
            }
        }
        rank
    }
}

/// Sums of counts are monotone.
pub proof fn lemma_sum_counts_bounds<T: Word>(es: Seq<Entry<T>>, m: nat, n: nat)
    requires
        m <= n,
    ensures
        sum_counts(es, m) <= sum_counts(es, n),
    decreases n,
{
    if n > m {
        lemma_sum_counts_bounds(es, m, (n - 1) as nat);
    }
}


/// Replacing the entry at `p` by one with the same index only changes that block.
#[verifier::spinoff_prover]
pub proof fn lemma_block_of_update<T: Word>(es: Seq<Entry<T>>, p: int, e: Entry<T>)
    requires
        sorted(es),
        0 <= p < es.len(),
        e.index == es[p].index,
    ensures
        sorted(es.update(p, e)),
        block_of(es.update(p, e), e.index as nat) == e.block,
        forall|q: nat| q != e.index ==> #[trigger] block_of(es.update(p, e), q) == block_of(es, q),
{
    let es2 = es.update(p, e);
    assert(sorted(es2)) by {
        assert forall|a: int, b: int| 0 <= a < b < es2.len() implies #[trigger] es2[a].index < #[trigger] es2[b].index by {
            assert(es[a].index < es[b].index);
        }
    }
    lemma_block_of(es2, p);
    assert forall|q: nat| q != e.index implies #[trigger] block_of(es2, q) == block_of(es, q) by {
        if has_entry(es, q) {
            let k = choose|k: int| 0 <= k < es.len() && #[trigger] es[k].index == q;
            lemma_block_of(es, k);
            lemma_block_of(es2, k);
        } else {
            assert(!has_entry(es2, q)) by {
                if has_entry(es2, q) {
                    let k = choose|k: int| 0 <= k < es2.len() && #[trigger] es2[k].index == q;
                    assert(es[k].index == q);
                }
            }
        }
    }
}

/// Inserting an entry at its place only adds that block.
#[verifier::spinoff_prover]
#[verifier::rlimit(30)]
pub proof fn lemma_block_of_insert<T: Word>(es: Seq<Entry<T>>, p: int, e: Entry<T>)
    requires
        sorted(es),
        0 <= p <= es.len(),
        forall|k: int| 0 <= k < p ==> #[trigger] es[k].index < e.index,
        forall|k: int| p <= k < es.len() ==> #[trigger] es[k].index > e.index,
    ensures
        sorted(es.insert(p, e)),
        block_of(es.insert(p, e), e.index as nat) == e.block,
        forall|q: nat| q != e.index ==> #[trigger] block_of(es.insert(p, e), q) == block_of(es, q),
{
    let es2 = es.insert(p, e);
    es.insert_ensures(p, e);
    assert(sorted(es2)) by {
        assert forall|a: int, b: int| 0 <= a < b < es2.len() implies #[trigger] es2[a].index < #[trigger] es2[b].index by {
            if b < p {
                assert(es[a].index < es[b].index);
            } else if b == p {
            } else if a < p {
                assert(es2[b] == es[b - 1]);
            } else if a == p {
                assert(es2[b] == es[b - 1]);
            } else {
                assert(es2[b] == es[b - 1]);
                assert(es2[a] == es[a - 1]);
                assert(es[a - 1].index < es[b - 1].index);
            }
        }
    }
    lemma_block_of(es2, p);
    assert forall|q: nat| q != e.index implies #[trigger] block_of(es2, q) == block_of(es, q) by {
        if has_entry(es, q) {
            let k = choose|k: int| 0 <= k < es.len() && #[trigger] es[k].index == q;
            lemma_block_of(es, k);
            if k < p {
                lemma_block_of(es2, k);
            } else {
                assert(es2[k + 1] == es[k]);
                lemma_block_of(es2, k + 1);
            }
        } else {
            assert(!has_entry(es2, q)) by {
                if has_entry(es2, q) {
                    let k = choose|k: int| 0 <= k < es2.len() && #[trigger] es2[k].index == q;
                    if k < p {
                        assert(es[k].index == q);
                    } else if k > p {
                        assert(es2[k] == es[k - 1]);
                        assert(es[k - 1].index == q);
                    }
                }
            }
        }
    }
}

/// Removing the entry at `p` only drops that block.
#[verifier::spinoff_prover]
pub proof fn lemma_block_of_remove<T: Word>(es: Seq<Entry<T>>, p: int)
    requires
        sorted(es),
        0 <= p < es.len(),
    ensures
        sorted(es.remove(p)),
        !has_entry(es.remove(p), es[p].index as nat),
        forall|q: nat| q != es[p].index ==> #[trigger] block_of(es.remove(p), q) == block_of(es, q),
{
    let es2 = es.remove(p);
    es.remove_ensures(p);
    assert(sorted(es2)) by {
        assert forall|a: int, b: int| 0 <= a < b < es2.len() implies #[trigger] es2[a].index < #[trigger] es2[b].index by {
            if b < p {
                assert(es[a].index < es[b].index);
            } else if a < p {
                assert(es2[b] == es[b + 1]);
                assert(es[a].index < es[b + 1].index);
            } else {
                assert(es2[b] == es[b + 1]);
                assert(es2[a] == es[a + 1]);
                assert(es[a + 1].index < es[b + 1].index);
            }
        }
    }
    assert(!has_entry(es2, es[p].index as nat)) by {
        if has_entry(es2, es[p].index as nat) {
            let k = choose|k: int| 0 <= k < es2.len() && #[trigger] es2[k].index == es[p].index;
            if k < p {
                assert(es[k].index < es[p].index);
            } else {
                assert(es2[k] == es[k + 1]);
                assert(es[p].index < es[k + 1].index);
            }
        }
    }
    assert forall|q: nat| q != es[p].index implies #[trigger] block_of(es2, q) == block_of(es, q) by {
        if has_entry(es, q) {
            let k = choose|k: int| 0 <= k < es.len() && #[trigger] es[k].index == q;
            lemma_block_of(es, k);
            if k < p {
                lemma_block_of(es2, k);
            } else {
                assert(es2[k - 1] == es[k]);
                lemma_block_of(es2, k - 1);
            }
        } else {
            assert(!has_entry(es2, q)) by {
                if has_entry(es2, q) {
                    let k = choose|k: int| 0 <= k < es2.len() && #[trigger] es2[k].index == q;
                    if k < p {
                        assert(es[k].index == q);
                    } else {
                        assert(es2[k] == es[k + 1]);
                        assert(es[k + 1].index == q);
                    }
                }
            }
        }
    }
}

/// Sum of counts after replacing one entry.
pub proof fn lemma_sum_counts_update<T: Word>(es: Seq<Entry<T>>, p: int, e: Entry<T>, n: nat)
    requires
        0 <= p < es.len(),
        n <= es.len(),
    ensures
        sum_counts(es.update(p, e), n) + (if p < n { es[p].block.count() } else { 0 }) == sum_counts(
            es,
            n,
        ) + (if p < n { e.block.count() } else { 0 }),
    decreases n,
{
    if n > 0 {
        lemma_sum_counts_update(es, p, e, (n - 1) as nat);
    }
}

/// Sum of counts after inserting one entry.
pub proof fn lemma_sum_counts_insert<T: Word>(es: Seq<Entry<T>>, p: int, e: Entry<T>, n: nat)
    requires
        0 <= p <= es.len(),
        n <= es.len(),
    ensures
        n < p ==> sum_counts(es.insert(p, e), n) == sum_counts(es, n),
        n >= p ==> sum_counts(es.insert(p, e), n + 1) == sum_counts(es, n) + e.block.count(),
    decreases n,
{
    es.insert_ensures(p, e);
    let es2 = es.insert(p, e);
    if n == 0 {
        if p == 0 {
            assert(es2[0] == e);
            assert(sum_counts(es2, 1) == sum_counts(es2, 0) + es2[0].block.count());
        }
    } else {
        lemma_sum_counts_insert(es, p, e, (n - 1) as nat);
        assert(sum_counts(es, n) == sum_counts(es, (n - 1) as nat) + es[n - 1].block.count());
        if n < p {
            assert(es2[n - 1] == es[n - 1]);
            assert(sum_counts(es2, n) == sum_counts(es2, (n - 1) as nat) + es2[n - 1].block.count());
        } else if n == p {
            assert(es2[n - 1] == es[n - 1]);
            assert(sum_counts(es2, n) == sum_counts(es2, (n - 1) as nat) + es2[n - 1].block.count());
            assert(es2[n as int] == e);
            assert(sum_counts(es2, n + 1) == sum_counts(es2, n) + es2[n as int].block.count());
        } else {
            assert(es2[n as int] == es[n - 1]);
            assert(sum_counts(es2, n + 1) == sum_counts(es2, n) + es2[n as int].block.count());
        }
    }
}

/// Sum of counts after removing one entry.
pub proof fn lemma_sum_counts_remove<T: Word>(es: Seq<Entry<T>>, p: int, n: nat)
    requires
        0 <= p < es.len(),
        n <= es.len(),
    ensures
        n <= p ==> sum_counts(es.remove(p), n) == sum_counts(es, n),
        n > p ==> sum_counts(es.remove(p), (n - 1) as nat) + es[p].block.count() == sum_counts(
            es,
            n,
        ),
    decreases n,
{
    es.remove_ensures(p);
    if n > 0 {
        lemma_sum_counts_remove(es, p, (n - 1) as nat);
    }
}

/// Missing a bit leaves room below the bound.
pub proof fn lemma_rank_gap<T: Word>(es: Seq<Entry<T>>, i: nat, n: nat)
    requires
        i < n,
        !entries_has(es, i),
    ensures
        entries_rank(es, n) < n,
{
    lemma_entries_rank_bounds(es, 0, i);
    lemma_entries_rank_bounds(es, i + 1, n);
}

impl<T: Word> RawVec<Entry<T>> {
    /// Sets bit `i` and returns its previous value.
    pub fn insert(&mut self, i: u64) -> (prev: bool)
        requires
            old(self).wf(),
            i < large(),
            i / 65536 <= usize::MAX,
        ensures
            final(self).wf(),
            prev == old(self).has(i as nat),
            forall|j: nat| #[trigger] final(self).has(j) == (j == i || old(self).has(j)),
    {
        let (index, offset) = self.address(i);
        proof {
            lemma_total(self.bits@);
            if !self.has(i as nat) {
                lemma_rank_gap(self.bits@, i as nat, large());
            }
            lemma_entries_has_at(self.bits@, index as nat, offset as nat);
        }
        let ghost es = self.bits@;
        match self.search_entry(index) {
            Ok(p) => {
                let mut entry = self.bits.remove(p);
                proof {
                    lemma_block_of(es, p as int);
                    es.remove_ensures(p as int);
                }
                let prev = entry.block.insert(offset);
                self.bits.insert(p, entry);
                proof {
                    assert(self.bits@ =~= es.update(p as int, entry));
                    lemma_block_of_update(es, p as int, entry);
                    lemma_sum_counts_update(es, p as int, entry, es.len());
                    assert forall|j: nat| #[trigger] self.has(j) == (j == i || old(self).has(j)) by {
                        if j < large() {
                            lemma_split_index(j, 65536, j / 65536, j % 65536);
                            if j / 65536 == index as nat {
                                assert(j == i <==> j % 65536 == offset as nat);
                            }
                        }
                    }
                }
                if prev {
                    true
                } else {
                    self.ones = self.ones + 1;
                    false
                }
            },
            Err(p) => {
                let mut block = Words::splat(T::zero());
                let ghost empty_block = block;
                proof {
                    crate::word::lemma_bits_of_ops(0, 0);
                    assert forall|j: nat| !#[trigger] empty_block.has(j) by {
                        if j < 65536 {
                            crate::bit_set::words::lemma_word_index::<T>(j);
                        }
                    }
                    Words::<T>(None).lemma_has_absent();
                    Words::<T>::lemma_rank_ext(empty_block, Words::<T>(None), 65536);
                    Words::<T>(None).lemma_count();
                }
                block.insert(offset);
                let entry = Entry::new(index as usize, block);
                self.bits.insert(p, entry);
                proof {
                    lemma_block_of_insert(es, p as int, entry);
                    lemma_sum_counts_insert(es, p as int, entry, es.len());
                    es.insert_ensures(p as int, entry);
                    assert(!has_entry(es, index as nat)) by {
                        if has_entry(es, index as nat) {
                            let c = choose|c: int| 0 <= c < es.len() && #[trigger] es[c].index == index;
                            assert(c < p || c >= p);
                        }
                    }
                    assert forall|j: nat| #[trigger] self.has(j) == (j == i || old(self).has(j)) by {
                        if j < large() {
                            lemma_split_index(j, 65536, j / 65536, j % 65536);
                            if j / 65536 == index as nat {
                                assert(j == i <==> j % 65536 == offset as nat);
                            }
                        }
                    }
                    assert forall|k: int| 0 <= k < self.bits@.len() implies (#[trigger] self.bits@[k]).block.count() > 0 by {
                        if k == p {
                            block.lemma_rank_bounds(offset as nat, offset as nat + 1);
                            block.lemma_rank_bounds(offset as nat + 1, 65536);
                        } else if k > p {
                            assert(self.bits@[k] == es[k - 1]);
                        }
                    }
                    assert forall|k: int| 0 <= k < self.bits@.len() implies (#[trigger] self.bits@[k]).index < block_count() by {
                        if k > p {
                            assert(self.bits@[k] == es[k - 1]);
                        }
                    }
                    assert forall|k: int| 0 <= k < self.bits@.len() implies (#[trigger] self.bits@[k]).block.wf() by {
                        if k > p {
                            assert(self.bits@[k] == es[k - 1]);
                        }
                    }
                }
                self.ones = self.ones + 1;
                false
            },
        }
    }

    /// Clears bit `i` and returns its previous value.
    pub fn remove(&mut self, i: u64) -> (prev: bool)
        requires
            old(self).wf(),
            i < large(),
        ensures
            final(self).wf(),
            prev == old(self).has(i as nat),
            forall|j: nat| #[trigger] final(self).has(j) == (j != i && old(self).has(j)),
    {
        let (index, offset) = self.address(i);
        proof {
            lemma_entries_has_at(self.bits@, index as nat, offset as nat);
        }
        let ghost es = self.bits@;
        match self.search_entry(index) {
            Ok(p) => {
                let mut entry = self.bits.remove(p);
                proof {
                    lemma_block_of(es, p as int);
                    es.remove_ensures(p as int);
                    lemma_sum_counts_remove(es, p as int, es.len());
                    lemma_sum_counts_bounds(es, p as int as nat + 1, es.len());
                }
                let removed = entry.block.remove(offset);
                if removed {
                    self.ones = self.ones - 1;
                }
                if entry.block.count1() == 0 {
                    proof {
                        lemma_block_of_remove(es, p as int);
                        entry.block.lemma_rank_bounds(offset as nat, offset as nat + 1);
                        entry.block.lemma_rank_bounds(offset as nat + 1, 65536);
                        assert forall|j: nat| #[trigger] self.has(j) == (j != i && old(self).has(j)) by {
                            if j < large() {
                                lemma_split_index(j, 65536, j / 65536, j % 65536);
                                if j / 65536 == index as nat {
                                    Words::<T>(None).lemma_has_absent();
                                    if entry.block.has(j % 65536) {
                                        let r = j % 65536;
                                        entry.block.lemma_rank_bounds(r, r + 1);
                                        entry.block.lemma_rank_bounds(r + 1, 65536);
                                    }
                                }
                            }
                        }
                    }
                } else {
                    self.bits.insert(p, entry);
                    proof {
                        assert(self.bits@ =~= es.update(p as int, entry));
                        lemma_block_of_update(es, p as int, entry);
                        lemma_sum_counts_update(es, p as int, entry, es.len());
                        assert forall|j: nat| #[trigger] self.has(j) == (j != i && old(self).has(j)) by {
                            if j < large() {
                                lemma_split_index(j, 65536, j / 65536, j % 65536);
                                if j / 65536 == index as nat {
                                    assert(j == i <==> j % 65536 == offset as nat);
                                }
                            }
                        }
                    }
                }
                removed
            },
            Err(p) => {
                proof {
                    assert(!has_entry(es, index as nat)) by {
                        if has_entry(es, index as nat) {
                            let c = choose|c: int| 0 <= c < es.len() && #[trigger] es[c].index == index;
                            assert(c < p || c >= p);
                        }
                    }
                    Words::<T>(None).lemma_has_absent();
                    assert forall|j: nat| #[trigger] self.has(j) == (j != i && old(self).has(j)) by {
                        if j < large() {
                            lemma_split_index(j, 65536, j / 65536, j % 65536);
                        }
                    }
                }
                false
            },
        }
    }
}


impl<T: Word> RawVec<Entry<T>> {
    /// The number of unset bits below `i`.
    pub fn rank0(&self, i: u64) -> (r: u64)
        requires
            self.wf(),
            i <= large(),
        ensures
            r == i - self.rank(i as nat),
    {
        proof {
            lemma_entries_rank_bounds(self.bits@, 0, i as nat);
        }
        i - self.rank1(i)
    }

    /// `rank1(i) - rank0(i)`, when the ones are at least as many as the zeros.
    pub fn excess1(&self, i: u64) -> (r: u64)
        requires
            self.wf(),
            i <= large(),
            self.rank(i as nat) >= i - self.rank(i as nat),
        ensures
            r == self.rank(i as nat) - (i - self.rank(i as nat)),
    {
        let rank1 = self.rank1(i);
        let rank0 = self.rank0(i);
        rank1 - rank0
    }

    /// `rank0(i) - rank1(i)`, when the zeros are at least as many as the ones.
    pub fn excess0(&self, i: u64) -> (r: u64)
        requires
            self.wf(),
            i <= large(),
            i - self.rank(i as nat) >= self.rank(i as nat),
        ensures
            r == (i - self.rank(i as nat)) - self.rank(i as nat),
    {
        let rank1 = self.rank1(i);
        let rank0 = self.rank0(i);
        rank0 - rank1
    }

    /// The position of the set bit with `n` set bits before it.
    pub fn select1(&self, n: u64) -> (r: u64)
        requires
            self.wf(),
            n < self.rank(large()),
        ensures
            r < large(),
            self.has(r as nat),
            self.rank(r as nat) == n,
    {
        proof {
            lemma_total(self.bits@);
        }
        let mut m: u64 = n;
        let mut k: usize = 0;
        while k < self.bits.len()
            invariant
                self.wf(),
                k <= self.bits@.len(),
                sum_counts(self.bits@, k as nat) + m == n,
                n < sum_counts(self.bits@, self.bits@.len()),
            decreases self.bits@.len() - k,
        {
            let entry = &self.bits[k];
            let c = entry.block.count1();
            if m < c {
                let s = entry.block.select1(m);
                proof {
                    assert forall|j: int| 0 <= j < k implies #[trigger] self.bits@[j].index < entry.index by {
                        assert(self.bits@[j].index < self.bits@[k as int].index);
                    }
                    assert forall|j: int| k <= j < self.bits@.len() implies #[trigger] self.bits@[j].index >= entry.index by {
                        if j > k {
                            assert(self.bits@[k as int].index < self.bits@[j].index);
                        }
                    }
                    lemma_rank_prefix(self.bits@, entry.index as nat, k as nat);
                    lemma_rank_in_block(self.bits@, entry.index as nat, s as nat);
                    lemma_block_of(self.bits@, k as int);
                    lemma_entries_has_at(self.bits@, entry.index as nat, s as nat);
                }
                return entry.index as u64 * crate::bit_set::SHORT_BIT_MAX + s;
            }
            m = m - c;
            k = k + 1;
        }
        proof {
            assert(false);
        }
        0
    }

    /// The position of the unset bit with `n` unset bits before it.
    pub fn select0(&self, n: u64) -> (r: u64)
        requires
            self.wf(),
            n < large() - self.rank(large()),
        ensures
            r < large(),
            !self.has(r as nat),
            r - self.rank(r as nat) == n,
    {
        let size = self.size();
        let ghost p = |k: u64| k <= large() && k - self.rank(k as nat) > n;
        proof {
            assert forall|a: u64, b: u64| a <= b <= size && #[trigger] p(a) implies #[trigger] p(b) by {
                lemma_entries_rank_bounds(self.bits@, a as nat, b as nat);
            }
            lemma_entries_rank_bounds(self.bits@, 0, large());
        }
        let this: &Self = self;
        let pred = (|k: u64| -> (b: bool)
            requires
                k <= size,
                size == large(),
                this.wf(),
            ensures
                b == p(k),
            { this.rank0(k) > n });
        let k = search(size, pred, Ghost(p));
        proof {
            assert(p(size));
            assert(k > 0) by {
                if k == 0 {
                    assert(self.rank(0) == 0);
                }
            }
            assert(!p((k - 1) as u64));
            lemma_entries_rank_bounds(self.bits@, 0, (k - 1) as nat);
            assert(self.rank(k as nat) == self.rank((k - 1) as nat) + if self.has((k - 1) as nat) { 1nat } else { 0nat });
        }
        k - 1
    }
}

impl<T: Word> RawVec<Entry<T>> {
    /// Collects entries, sorted by index, into a bit space; the blocks that
    /// hold no set bit are left out.
    pub fn from_entries(es: &Vec<Entry<T>>) -> (r: Self)
        requires
            entries_wf(es@),
        ensures
            r.wf(),
            forall|p: nat| #[trigger] r.has(p) == entries_has(es@, p),
    {
        let mut ones: u64 = 0;
        let mut bits: Vec<Entry<T>> = Vec::new();
        let mut i: usize = 0;
        while i < es.len()
            invariant
                entries_wf(es@),
                i <= es@.len(),
                entries_wf(bits@),
                forall|k: int| 0 <= k < bits@.len() ==> (#[trigger] bits@[k]).block.count() > 0,
                ones == sum_counts(bits@, bits@.len()),
                forall|k: int, m: int|
                    0 <= k < bits@.len() && i <= m < es@.len() ==> #[trigger] bits@[k].index
                        < #[trigger] es@[m].index,
                forall|q: nat, x: nat| #[trigger]
                    block_of(bits@, q).has(x) == block_of(es@.take(i as int), q).has(x),
            decreases es@.len() - i,
        {
            let ghost pre = es@.take(i as int);
            let ghost e0 = es@[i as int];
            let count = es[i].block.count1();
            proof {
                assert(es@.take(i + 1) =~= pre.insert(i as int, e0));
                assert forall|k: int| 0 <= k < i implies #[trigger] pre[k].index < e0.index by {
                    assert(es@[k].index < es@[i as int].index);
                }
                lemma_block_of_insert(pre, i as int, e0);
            }
            if count > 0 {
                let e = copy_entry(&es[i]);
                let ghost old_bits = bits@;
                proof {
                    lemma_total(old_bits);
                    Words::lemma_rank_ext(e.block, e0.block, 65536);
                    assert forall|k: int| 0 <= k < old_bits.len() implies #[trigger] old_bits[k].index
                        < e.index by {
                        assert(old_bits[k].index < es@[i as int].index);
                    }
                    lemma_block_of_insert(old_bits, old_bits.len() as int, e);
                    lemma_sum_counts_insert(old_bits, old_bits.len() as int, e, old_bits.len());
                    assert(old_bits.insert(old_bits.len() as int, e) =~= old_bits.push(e));
                }
                ones = ones + count;
                bits.push(e);
                proof {
                    assert forall|q: nat, x: nat| #[trigger]
                        block_of(bits@, q).has(x) == block_of(es@.take(i + 1), q).has(x) by {
                        if q != e0.index {
                            assert(block_of(bits@, q) == block_of(old_bits, q));
                        }
                    }
                }
            } else {
                proof {
                    e0.block.lemma_count_zero();
                    assert(!has_entry(bits@, e0.index as nat)) by {
                        if has_entry(bits@, e0.index as nat) {
                            let k = choose|k: int| 0 <= k < bits@.len() && #[trigger] bits@[k].index
                                == e0.index;
                            assert(bits@[k].index < es@[i as int].index);
                        }
                    }
                    Words::<T>(None).lemma_has_absent();
                    assert forall|q: nat, x: nat| #[trigger]
                        block_of(bits@, q).has(x) == block_of(es@.take(i + 1), q).has(x) by {
                        if q == e0.index {
                            assert(!block_of(es@.take(i + 1), q).has(x));
                        }
                    }
                }
            }
            i = i + 1;
        }
        proof {
            assert(es@.take(es@.len() as int) =~= es@);
        }
        Self::new_unchecked(ones, bits)
    }

    /// Copies of the entries, in order.
    pub fn entries(&self) -> (r: Vec<Entry<T>>)
        requires
            self.wf(),
        ensures
            r@.len() == self.bits@.len(),
            forall|k: int|
                0 <= k < r@.len() ==> (#[trigger] r@[k]).index == self.bits@[k].index
                    && r@[k].block.words() == self.bits@[k].block.words()
                    && (r@[k].block.0 is Some) == (self.bits@[k].block.0 is Some),
            entries_wf(r@),
            forall|p: nat| #[trigger] entries_has(r@, p) == self.has(p),
    {
        let mut out: Vec<Entry<T>> = Vec::new();
        let mut k: usize = 0;
        while k < self.bits.len()
            invariant
                self.wf(),
                k <= self.bits@.len(),
                out@.len() == k,
                forall|m: int|
                    0 <= m < k ==> (#[trigger] out@[m]).index == self.bits@[m].index
                        && out@[m].block.words() == self.bits@[m].block.words()
                        && (out@[m].block.0 is Some) == (self.bits@[m].block.0 is Some),
            decreases self.bits@.len() - k,
        {
            out.push(copy_entry(&self.bits[k]));
            k = k + 1;
        }
        proof {
            let es = self.bits@;
            assert(sorted(out@)) by {
                assert forall|a: int, b: int| 0 <= a < b < out@.len() implies #[trigger] out@[a].index
                    < #[trigger] out@[b].index by {
                    assert(es[a].index < es[b].index);
                }
            }
            assert forall|m: int| 0 <= m < out@.len() implies (#[trigger] out@[m]).block.wf() by {
                assert(es[m].block.wf());
            }
            assert forall|m: int| 0 <= m < out@.len() implies (#[trigger] out@[m]).index
                < block_count() by {
                assert(es[m].index < block_count());
            }
            assert forall|q: nat, x: nat| #[trigger] block_of(out@, q).has(x) == block_of(es, q).has(x) by {
                if has_entry(es, q) {
                    let k = choose|k: int| 0 <= k < es.len() && #[trigger] es[k].index == q;
                    lemma_block_of(es, k);
                    lemma_block_of(out@, k);
                } else {
                    assert(!has_entry(out@, q)) by {
                        if has_entry(out@, q) {
                            let k = choose|k: int| 0 <= k < out@.len() && #[trigger] out@[k].index == q;
                            assert(es[k].index == q);
                        }
                    }
                }
            }
        }
        out
    }
}

impl<T: Word> Default for RawVec<Entry<T>> {
    fn default() -> (r: Self)
        ensures
            r.wf(),
            forall|i: nat| !#[trigger] r.has(i),
    {
        Self::new()
    }
}

impl<T: Word> RawVec<Entry<T>> {
    /// The bit space with the given positions set.
    pub fn from_slice(bits: &[u64]) -> (r: Self)
        requires
            forall|k: int| 0 <= k < bits@.len() ==> #[trigger] bits@[k] < large() && bits@[k] / 65536 <= usize::MAX,
        ensures
            r.wf(),
            forall|j: nat| #[trigger] r.has(j) <==> exists|k: int| 0 <= k < bits@.len() && bits@[k] == j,
    {
        let mut set = Self::new();
        let mut k: usize = 0;
        while k < bits.len()
            invariant
                set.wf(),
                k <= bits@.len(),
                forall|k: int| 0 <= k < bits@.len() ==> #[trigger] bits@[k] < large() && bits@[k] / 65536 <= usize::MAX,
                forall|j: nat| #[trigger] set.has(j) <==> exists|m: int| 0 <= m < k && bits@[m] == j,
            decreases bits@.len() - k,
        {
            let ghost before = set;
            set.insert(bits[k]);
            proof {
                assert forall|j: nat| #[trigger] set.has(j) <==> exists|m: int| 0 <= m < k + 1 && bits@[m] == j by {
                    if set.has(j) && j != bits@[k as int] {
                        assert(before.has(j));
                    }
                    if exists|m: int| 0 <= m < k + 1 && bits@[m] == j {
                        let m = choose|m: int| 0 <= m < k + 1 && bits@[m] == j;
                        if m < k {
                            assert(before.has(j));
                        }
                    }
                }
            }
            k = k + 1;
        }
        set
    }

    /// The bit space with the given positions set.
    pub fn from_vec(bits: Vec<u64>) -> (r: Self)
        requires
            forall|k: int| 0 <= k < bits@.len() ==> #[trigger] bits@[k] < large() && bits@[k] / 65536 <= usize::MAX,
        ensures
            r.wf(),
            forall|j: nat| #[trigger] r.has(j) <==> exists|k: int| 0 <= k < bits@.len() && bits@[k] == j,
    {
        Self::from_slice(bits.as_slice())
    }
}

} // verus!
