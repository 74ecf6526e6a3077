//! Dense storage of a bit space: every block up to the last one touched is
//! kept in order, its position in the vector being its index.

use vstd::prelude::*;
use crate::word::{Word, search};
use crate::bit_set::Entry;
use crate::bit_set::words::{Words, lemma_split_index, lemma_width};
use crate::bit_set::raw_vec::{
    RawVec, large, block_count, entries_wf, entries_has, has_entry, block_of,
    lemma_block_of_insert,
};

verus! {

/// The set bits of the first `m` blocks.
pub open spec fn page_counts<T: Word>(ps: Seq<Words<T>>, m: nat) -> nat
    decreases m,
{
    if m == 0 {
        0
    } else {
        page_counts(ps, (m - 1) as nat) + ps[m - 1].count()
    }
}

/// Bit `i` of the bit space held by the blocks `ps`.
pub open spec fn pages_has<T: Word>(ps: Seq<Words<T>>, i: nat) -> bool {
    &&& i < large()
    &&& i / 65536 < ps.len()
    &&& ps[(i / 65536) as int].has(i % 65536)
}

/// The number of set bits below `i` in the bit space held by `ps`.
pub open spec fn pages_rank<T: Word>(ps: Seq<Words<T>>, i: nat) -> nat
    decreases i,
{
    if i == 0 {
        0
    } else {
        pages_rank(ps, (i - 1) as nat) + if pages_has(ps, (i - 1) as nat) { 1nat } else { 0nat }
    }
}

/// The counts of the blocks grow with the number of blocks, by at most 65536
/// per block.
pub proof fn lemma_page_counts_bounds<T: Word>(ps: Seq<Words<T>>, m: nat, n: nat)
    requires
        m <= n <= ps.len(),
        forall|k: int| 0 <= k < ps.len() ==> (#[trigger] ps[k]).wf(),
    ensures
        page_counts(ps, m) <= page_counts(ps, n),
        page_counts(ps, n) - page_counts(ps, m) <= (n - m) * 65536,
    decreases n,
{
    if n > m {
        lemma_page_counts_bounds(ps, m, (n - 1) as nat);
        ps[n - 1].lemma_rank_bounds(0, 65536);
        assert((n - m) * 65536 == (n - 1 - m) * 65536 + 65536) by (nonlinear_arith)
            requires
                n > m,
        ;
    }
}

/// Inside block `q`, the rank is the counts of the blocks before it plus the
/// rank in that block.
pub proof fn lemma_pages_rank_at<T: Word>(ps: Seq<Words<T>>, q: nat, r: nat)
    requires
        q < ps.len(),
        q < block_count(),
        r <= 65536,
    ensures
        pages_rank(ps, q * 65536 + r) == page_counts(ps, q) + ps[q as int].rank(r),
    decreases q, r,
{
    if r > 0 {
        lemma_pages_rank_at(ps, q, (r - 1) as nat);
        lemma_split_index((q * 65536 + r - 1) as nat, 65536, q, (r - 1) as nat);
        assert(q * 65536 + r - 1 + 1 == q * 65536 + r);
        assert(q * 65536 + r - 1 < large()) by (nonlinear_arith)
            requires
                q < block_count(),
                r <= 65536,
                r > 0,
        ;
    } else if q > 0 {
        lemma_pages_rank_at(ps, (q - 1) as nat, 65536);
        assert((q - 1) * 65536 + 65536 == q * 65536) by (nonlinear_arith);
    }
}

/// Past the last block nothing is set: the rank stays at the total count.
pub proof fn lemma_pages_rank_past<T: Word>(ps: Seq<Words<T>>, i: nat)
    requires
        ps.len() <= block_count(),
        ps.len() * 65536 <= i,
    ensures
        pages_rank(ps, i) == page_counts(ps, ps.len()),
    decreases i,
{
    let n = ps.len();
    if i > n * 65536 {
        lemma_pages_rank_past(ps, (i - 1) as nat);
        assert(!pages_has(ps, (i - 1) as nat)) by {
            if (i - 1) / 65536 < n {
                assert(((i - 1) / 65536) * 65536 <= i - 1) by {
                    vstd::arithmetic::div_mod::lemma_fundamental_div_mod((i - 1) as int, 65536);
                }
                assert(((i - 1) / 65536 + 1) * 65536 <= n * 65536) by (nonlinear_arith)
                    requires
                        (i - 1) / 65536 < n,
                ;
                vstd::arithmetic::div_mod::lemma_fundamental_div_mod((i - 1) as int, 65536);
            }
        }
    } else if n > 0 {
        lemma_pages_rank_at(ps, (n - 1) as nat, 65536);
        assert((n - 1) * 65536 + 65536 == n * 65536) by (nonlinear_arith);
    }
}

/// The whole bit space holds as many set bits as the blocks count.
pub proof fn lemma_pages_total<T: Word>(ps: Seq<Words<T>>)
    requires
        ps.len() <= block_count(),
        forall|k: int| 0 <= k < ps.len() ==> (#[trigger] ps[k]).wf(),
    ensures
        pages_rank(ps, large()) == page_counts(ps, ps.len()),
        page_counts(ps, ps.len()) <= large(),
{
    assert(ps.len() * 65536 <= large()) by (nonlinear_arith)
        requires
            ps.len() <= block_count(),
    ;
    lemma_pages_rank_past(ps, large());
    lemma_page_counts_bounds(ps, 0, ps.len());
}

/// Ranks are monotone and grow by at most one per position.
pub proof fn lemma_pages_rank_bounds<T: Word>(ps: Seq<Words<T>>, i: nat, n: nat)
    requires
        i <= n,
    ensures
        pages_rank(ps, i) <= pages_rank(ps, n),
        pages_rank(ps, n) - pages_rank(ps, i) <= n - i,
    decreases n,
{
    if n > i {
        lemma_pages_rank_bounds(ps, i, (n - 1) as nat);
    }
}

/// The counts after replacing one block.
pub proof fn lemma_page_counts_update<T: Word>(ps: Seq<Words<T>>, p: int, x: Words<T>, n: nat)
    requires
        0 <= p < ps.len(),
        n <= ps.len(),
    ensures
        page_counts(ps.update(p, x), n) + (if p < n { ps[p].count() } else { 0 }) == page_counts(ps, n)
            + (if p < n { x.count() } else { 0 }),
    decreases n,
{
    if n > 0 {
        lemma_page_counts_update(ps, p, x, (n - 1) as nat);
    }
}

/// Appending an absent block changes neither the counts nor the bits.
pub proof fn lemma_pages_push_absent<T: Word>(ps: Seq<Words<T>>)
    ensures
        page_counts(ps.push(Words(None)), ps.len() + 1) == page_counts(ps, ps.len()),
        forall|i: nat| #[trigger] pages_has(ps.push(Words(None)), i) == pages_has(ps, i),
{
    let qs = ps.push(Words(None));
    Words::<T>(None).lemma_count();
    Words::<T>(None).lemma_has_absent();
    assert(page_counts(qs, ps.len()) == page_counts(ps, ps.len())) by {
        lemma_page_counts_prefix(ps, qs, ps.len());
    }
    assert forall|i: nat| #[trigger] pages_has(qs, i) == pages_has(ps, i) by {
        if i / 65536 < ps.len() {
            assert(qs[(i / 65536) as int] == ps[(i / 65536) as int]);
        }
    }
}

/// The counts of a prefix depend on the blocks of that prefix only.
pub proof fn lemma_page_counts_prefix<T: Word>(ps: Seq<Words<T>>, qs: Seq<Words<T>>, n: nat)
    requires
        n <= ps.len(),
        n <= qs.len(),
        forall|k: int| 0 <= k < n ==> ps[k] == qs[k],
    ensures
        page_counts(ps, n) == page_counts(qs, n),
    decreases n,
{
    if n > 0 {
        lemma_page_counts_prefix(ps, qs, (n - 1) as nat);
    }
}

/// Bit `x` of block `q` of the bit space held by `ps`.
pub open spec fn page_has<T: Word>(ps: Seq<Words<T>>, q: nat, x: nat) -> bool {
    q < ps.len() && ps[q as int].has(x)
}

/// Appending a block adds its count.
pub proof fn lemma_page_counts_push<T: Word>(ps: Seq<Words<T>>, x: Words<T>)
    ensures
        page_counts(ps.push(x), ps.len() + 1) == page_counts(ps, ps.len()) + x.count(),
{
    lemma_page_counts_prefix(ps, ps.push(x), ps.len());
}

/// Bit `i` of the bit space is bit `i % 65536` of block `i / 65536`.
pub proof fn lemma_pages_has_split<T: Word>(ps: Seq<Words<T>>, i: nat)
    ensures
        pages_has(ps, i) == (i < large() && page_has(ps, i / 65536, i % 65536)),
{
}

impl<T: Word> RawVec<Words<T>> {
    /// Blocks well formed and within the bit space; `ones` counts their set
    /// bits.
    pub open spec fn wf(&self) -> bool {
        &&& self.bits@.len() <= block_count()
        &&& forall|k: int| 0 <= k < self.bits@.len() ==> (#[trigger] self.bits@[k]).wf()
        &&& self.ones == page_counts(self.bits@, self.bits@.len())
    }

    /// Bit `i`.
    pub open spec fn has(&self, i: nat) -> bool {
        pages_has(self.bits@, i)
    }

    /// The number of set bits below `i`.
    pub open spec fn rank(&self, i: nat) -> nat {
        pages_rank(self.bits@, i)
    }

    /// Creates an empty bit space.
    pub fn new() -> (r: Self)
        ensures
            r.wf(),
            forall|i: nat| !#[trigger] r.has(i),
            r.ones == 0,
    {
        RawVec { ones: 0, bits: Vec::new() }
    }

    /// Shrinks the internal vector.
    pub fn shrink_to_fit(&mut self)
        ensures
            final(self).ones == old(self).ones,
            final(self).bits@ == old(self).bits@,
    {
        super::shrink_vec(&mut self.bits);
    }

    /// The number of bits of the bit space.
    pub fn size(&self) -> (r: u64)
        ensures
            r == large(),
    {
        0x8000_0000_0000_0000u64
    }

    /// Reads bit `i`.
    pub fn access(&self, i: u64) -> (r: bool)
        requires
            self.wf(),
            i < large(),
        ensures
            r == self.has(i as nat),
    {
        let q = i / 65536;
        let o = i % 65536;
        if q < self.bits.len() as u64 {
            self.bits[q as usize].access(o)
        } else {
            false
        }
    }

    /// The number of set bits.
    pub fn count1(&self) -> (r: u64)
        requires
            self.wf(),
        ensures
            r == self.rank(large()),
    {
        proof {
            lemma_pages_total(self.bits@);
        }
        self.ones
    }

    /// The number of unset bits.
    pub fn count0(&self) -> (r: u64)
        requires
            self.wf(),
        ensures
            r == large() - self.rank(large()),
    {
        proof {
            lemma_pages_total(self.bits@);
        }
        self.size() - self.ones
    }

    /// The number of set bits below `i`.
    pub fn rank1(&self, i: u64) -> (r: u64)
        requires
            self.wf(),
            i <= large(),
        ensures
            r == self.rank(i as nat),
    {
        let q = i / 65536;
        let o = i % 65536;
        proof {
            vstd::arithmetic::div_mod::lemma_fundamental_div_mod(i as int, 65536);
        }
        let ghost ps = self.bits@;
        let stop: usize = if q < self.bits.len() as u64 { q as usize } else { self.bits.len() };
        let mut c: u64 = 0;
        let mut k: usize = 0;
        proof {
            lemma_page_counts_bounds(ps, 0, ps.len());
            lemma_pages_total(ps);
        }
        while k < stop
            invariant
                self.wf(),
                ps == self.bits@,
                stop <= ps.len(),
                k <= stop,
                c == page_counts(ps, k as nat),
                page_counts(ps, ps.len()) <= large(),
            decreases stop - k,
        {
            proof {
                lemma_page_counts_bounds(ps, (k + 1) as nat, ps.len());
            }
            c = c + self.bits[k].count1();
            k = k + 1;
        }
        if q < self.bits.len() as u64 {
            proof {
                lemma_pages_rank_at(ps, q as nat, o as nat);
                lemma_pages_rank_bounds(ps, i as nat, large());
                lemma_pages_total(ps);
            }
            c + self.bits[q as usize].rank1(o)
        } else {
            proof {
                assert(ps.len() * 65536 <= i) by (nonlinear_arith)
                    requires
                        ps.len() <= q,
                        i == q * 65536 + o,
                ;
                lemma_pages_rank_past(ps, i as nat);
            }
            c
        }
    }

    /// The number of unset bits below `i`.
    pub fn rank0(&self, i: u64) -> (r: u64)
        requires
            self.wf(),
            i <= large(),
        ensures
            r == i - self.rank(i as nat),
    {
        proof {
            lemma_pages_rank_bounds(self.bits@, 0, i as nat);
        }
        i - self.rank1(i)
    }

    /// The position of the set bit with `n` set bits before it.
    pub fn select1(&self, n: u64) -> (r: u64)
        requires
            self.wf(),
            n < self.rank(large()),
        ensures
            r < large(),
            self.has(r as nat),
            self.rank(r as nat) == n,
    {
        let ghost ps = self.bits@;
        proof {
            lemma_pages_total(ps);
        }
        let mut m = n;
        let mut k: usize = 0;
        while k < self.bits.len()
            invariant
                self.wf(),
                ps == self.bits@,
                k <= ps.len(),
                n == page_counts(ps, k as nat) + m,
                n < page_counts(ps, ps.len()),
            decreases ps.len() - k,
        {
            let c = self.bits[k].count1();
            if m < c {
                let s = self.bits[k].select1(m);
                proof {
                    lemma_pages_rank_at(ps, k as nat, s as nat);
                    lemma_split_index((k * 65536 + s) as nat, 65536, k as nat, s as nat);
                    assert(k * 65536 + s < large()) by (nonlinear_arith)
                        requires
                            k < block_count(),
                            s < 65536,
                    ;
                }
                return k as u64 * 65536 + s;
            }
            m = m - c;
            k = k + 1;
        }
        proof {
            assert(false);
        }
        0
    }

    /// The position of the unset bit with `n` unset bits before it.
    pub fn select0(&self, n: u64) -> (r: u64)
        requires
            self.wf(),
            n < large() - self.rank(large()),
        ensures
            r < large(),
            !self.has(r as nat),
            r - self.rank(r as nat) == n,
    {
        let size = self.size();
        let ghost p = |k: u64| k <= large() && k - self.rank(k as nat) > n;
        proof {
            assert forall|a: u64, b: u64| a <= b <= size && #[trigger] p(a) implies #[trigger] p(b) by {
                lemma_pages_rank_bounds(self.bits@, a as nat, b as nat);
            }
            lemma_pages_rank_bounds(self.bits@, 0, large());
        }
        let this: &Self = self;
        let pred = (|k: u64| -> (b: bool)
            requires
                k <= size,
                size == large(),
                this.wf(),
            ensures
                b == p(k),
            { this.rank0(k) > n });
        let k = search(size, pred, Ghost(p));
        proof {
            assert(p(size));
            assert(k > 0) by {
                if k == 0 {
                    assert(self.rank(0) == 0);
                }
            }
            assert(!p((k - 1) as u64));
            lemma_pages_rank_bounds(self.bits@, 0, (k - 1) as nat);
            assert(self.rank(k as nat) == self.rank((k - 1) as nat) + if self.has((k - 1) as nat) { 1nat } else { 0nat });
        }
        k - 1
    }

    /// Sets bit `i` and returns its previous value; the blocks up to the one
    /// of `i` are added as absent blocks when missing.
    pub fn insert(&mut self, i: u64) -> (prev: bool)
        requires
            old(self).wf(),
            i < large(),
            i / 65536 < usize::MAX,
        ensures
            final(self).wf(),
            prev == old(self).has(i as nat),
            forall|j: nat| #[trigger] final(self).has(j) == (j == i || old(self).has(j)),
    {
        let q = i / 65536;
        let o = i % 65536;
        proof {
            vstd::arithmetic::div_mod::lemma_fundamental_div_mod(i as int, 65536);
        }
        let qi = q as usize;
        while self.bits.len() <= qi
            invariant
                self.wf(),
                qi == i / 65536,
                qi < block_count(),
                forall|j: nat| #[trigger] self.has(j) == old(self).has(j),
            decreases qi + 1 - self.bits@.len(),
        {
            let ghost before = self.bits@;
            let ghost prior = *self;
            self.bits.push(Words(None));
            proof {
                lemma_pages_push_absent(before);
                assert(self.bits@ == before.push(Words(None)));
                assert forall|j: nat| #[trigger] self.has(j) == old(self).has(j) by {
                    assert(pages_has(before.push(Words(None)), j) == pages_has(before, j));
                    assert(prior.has(j) == old(self).has(j));
                }
                assert forall|k: int| 0 <= k < self.bits@.len() implies (#[trigger] self.bits@[k]).wf() by {
                    if k < before.len() {
                        assert(self.bits@[k] == before[k]);
                    }
                }
            }
        }
        let ghost ps = self.bits@;
        let ghost mid = *self;
        proof {
            lemma_pages_total(ps);
            lemma_split_index(i as nat, 65536, qi as nat, o as nat);
            assert(mid.has(i as nat) == old(self).has(i as nat));
        }
        let prev = self.bits[qi].insert(o);
        proof {
            let x = self.bits@[qi as int];
            assert(self.bits@ == ps.update(qi as int, x));
            lemma_page_counts_update(ps, qi as int, x, ps.len());
            lemma_pages_total(self.bits@);
            assert forall|k: int| 0 <= k < self.bits@.len() implies (#[trigger] self.bits@[k]).wf() by {
                if k != qi {
                    assert(self.bits@[k] == ps[k]);
                }
            }
        }
        if !prev {
            self.ones = self.ones + 1;
        }
        proof {
            assert forall|j: nat| #[trigger] self.has(j) == (j == i || old(self).has(j)) by {
                assert(mid.has(j) == old(self).has(j));
                if j < large() {
                    vstd::arithmetic::div_mod::lemma_fundamental_div_mod(j as int, 65536);
                    if j / 65536 == qi as nat {
                        assert(j == i <==> j % 65536 == o as nat);
                    } else if j / 65536 < ps.len() {
                        assert(self.bits@[(j / 65536) as int] == ps[(j / 65536) as int]);
                    }
                }
            }
        }
        prev
    }

    /// Clears bit `i` and returns its previous value.
    pub fn remove(&mut self, i: u64) -> (prev: bool)
        requires
            old(self).wf(),
            i < large(),
        ensures
            final(self).wf(),
            prev == old(self).has(i as nat),
            forall|j: nat| #[trigger] final(self).has(j) == (j != i && old(self).has(j)),
    {
        let q = i / 65536;
        let o = i % 65536;
        proof {
            vstd::arithmetic::div_mod::lemma_fundamental_div_mod(i as int, 65536);
        }
        if q >= self.bits.len() as u64 {
            return false;
        }
        let qi = q as usize;
        let ghost ps = self.bits@;
        proof {
            lemma_split_index(i as nat, 65536, qi as nat, o as nat);
            lemma_page_counts_bounds(ps, 0, ps.len());
            lemma_page_counts_update(ps, qi as int, ps[qi as int], ps.len());
        }
        let prev = self.bits[qi].remove(o);
        proof {
            let x = self.bits@[qi as int];
            assert(self.bits@ == ps.update(qi as int, x));
            lemma_page_counts_update(ps, qi as int, x, ps.len());
            assert forall|k: int| 0 <= k < self.bits@.len() implies (#[trigger] self.bits@[k]).wf() by {
                if k != qi {
                    assert(self.bits@[k] == ps[k]);
                }
            }
            assert forall|j: nat| #[trigger] self.has(j) == (j != i && old(self).has(j)) by {
                if j < large() {
                    vstd::arithmetic::div_mod::lemma_fundamental_div_mod(j as int, 65536);
                    if j / 65536 == qi as nat {
                        assert(j == i <==> j % 65536 == o as nat);
                    } else if j / 65536 < ps.len() {
                        assert(self.bits@[(j / 65536) as int] == ps[(j / 65536) as int]);
                    }
                }
            }
        }
        if prev {
            self.ones = self.ones - 1;
        }
        prev
    }

    /// The entries of the present blocks, in order of their index.
    pub fn entries(&self) -> (r: Vec<Entry<T>>)
        requires
            self.wf(),
        ensures
            entries_wf(r@),
            forall|q: nat| #[trigger] has_entry(r@, q) == (q < self.bits@.len() && self.bits@[q as int].0 is Some),
            forall|p: nat| #[trigger] entries_has(r@, p) == self.has(p),
    {
        let ghost ps = self.bits@;
        let mut out: Vec<Entry<T>> = Vec::new();
        let mut k: usize = 0;
        proof {
            Words::<T>(None).lemma_has_absent();
            lemma_width::<T>();
        }
        while k < self.bits.len()
            invariant
                self.wf(),
                ps == self.bits@,
                k <= ps.len(),
                entries_wf(out@),
                forall|m: int| 0 <= m < out@.len() ==> #[trigger] out@[m].index < k,
                forall|q: nat| #[trigger] has_entry(out@, q) == (q < k && ps[q as int].0 is Some),
                forall|q: nat, x: nat| #[trigger] block_of(out@, q).has(x) == (q < k && page_has(ps, q, x)),
            decreases ps.len() - k,
        {
            if !self.bits[k].is_empty() {
                let e = Entry::new(k, Words(Some(self.bits[k].iter())));
                let ghost before = out@;
                proof {
                    lemma_block_of_insert(before, before.len() as int, e);
                    assert(before.insert(before.len() as int, e) =~= before.push(e));
                }
                out.push(e);
                proof {
                    assert forall|m: int| 0 <= m < out@.len() implies (#[trigger] out@[m]).block.wf() by {
                        if m < before.len() {
                            assert(out@[m] == before[m]);
                        }
                    }
                    assert forall|m: int| 0 <= m < out@.len() implies (#[trigger] out@[m]).index < block_count() by {
                        if m < before.len() {
                            assert(out@[m] == before[m]);
                        }
                    }
                    assert forall|q: nat| #[trigger] has_entry(out@, q) == (q < k + 1 && ps[q as int].0 is Some) by {
                        if has_entry(out@, q) {
                            let m = choose|m: int| 0 <= m < out@.len() && #[trigger] out@[m].index == q;
                            if m < before.len() {
                                assert(out@[m] == before[m]);
                                assert(has_entry(before, q));
                            }
                        }
                        if q < k && ps[q as int].0 is Some {
                            assert(has_entry(before, q));
                            let m = choose|m: int| 0 <= m < before.len() && #[trigger] before[m].index == q;
                            assert(out@[m] == before[m]);
                        }
                        if q == k {
                            assert(out@[before.len() as int].index == q);
                        }
                    }
                    assert forall|q: nat, x: nat| #[trigger] block_of(out@, q).has(x) == (q < k + 1 && page_has(ps, q, x)) by {
                        if q != k {
                            assert(block_of(out@, q) == block_of(before, q));
                        }
                    }
                }
            } else {
                proof {
                    Words::<T>(None).lemma_has_absent();
                    lemma_width::<T>();
                    assert(ps[k as int].0 is None);
                    assert forall|q: nat, x: nat| #[trigger] block_of(out@, q).has(x) == (q < k + 1 && page_has(ps, q, x)) by {
                        if q == k {
                            assert(!ps[q as int].has(x));
                            assert(!has_entry(out@, q));
                        }
                    }
                }
            }
            k = k + 1;
        }
        proof {
            assert forall|p: nat| #[trigger] entries_has(out@, p) == self.has(p) by {
                if p < large() {
                    assert(block_of(out@, p / 65536).has(p % 65536) == page_has(ps, p / 65536, p % 65536));
                }
            }
        }
        out
    }

    /// Collects entries, sorted by index, into a dense bit space: each block
    /// that holds a set bit lands at its index, the gaps are absent blocks.
    pub fn from_entries(es: &Vec<Entry<T>>) -> (r: Self)
        requires
            entries_wf(es@),
        ensures
            r.wf(),
            forall|p: nat| #[trigger] r.has(p) == entries_has(es@, p),
    {
        let mut ones: u64 = 0;
        let mut bits: Vec<Words<T>> = Vec::new();
        let mut i: usize = 0;
        proof {
            Words::<T>(None).lemma_has_absent();
        }
        while i < es.len()
            invariant
                entries_wf(es@),
                i <= es@.len(),
                bits@.len() <= block_count(),
                forall|k: int| 0 <= k < bits@.len() ==> (#[trigger] bits@[k]).wf(),
                ones == page_counts(bits@, bits@.len()),
                forall|m: int| i <= m < es@.len() ==> bits@.len() <= #[trigger] es@[m].index,
                forall|q: nat, x: nat| #[trigger] page_has(bits@, q, x) == block_of(es@.take(i as int), q).has(x),
            decreases es@.len() - i,
        {
            let ghost pre = es@.take(i as int);
            let ghost e0 = es@[i as int];
            let count = es[i].block.count1();
            proof {
                assert(es@.take(i + 1) =~= pre.insert(i as int, e0));
                assert forall|k: int| 0 <= k < i implies #[trigger] pre[k].index < e0.index by {
                    assert(es@[k].index < es@[i as int].index);
                }
                lemma_block_of_insert(pre, i as int, e0);
            }
            if count > 0 {
                let index = es[i].index;
                while bits.len() < index
                    invariant
                        entries_wf(es@),
                        i < es@.len(),
                        index == es@[i as int].index,
                        index < block_count(),
                        bits@.len() <= index,
                        forall|k: int| 0 <= k < bits@.len() ==> (#[trigger] bits@[k]).wf(),
                        ones == page_counts(bits@, bits@.len()),
                        forall|q: nat, x: nat| #[trigger] page_has(bits@, q, x) == block_of(pre, q).has(x),
                    decreases index - bits@.len(),
                {
                    let ghost before = bits@;
                    bits.push(Words(None));
                    proof {
                        lemma_pages_push_absent(before);
                        Words::<T>(None).lemma_has_absent();
                        assert forall|k: int| 0 <= k < bits@.len() implies (#[trigger] bits@[k]).wf() by {
                            if k < before.len() {
                                assert(bits@[k] == before[k]);
                            }
                        }
                        assert forall|q: nat, x: nat| #[trigger] page_has(bits@, q, x) == block_of(pre, q).has(x) by {
                            assert(page_has(before, q, x) == block_of(pre, q).has(x));
                            if q < before.len() {
                                assert(bits@[q as int] == before[q as int]);
                            }
                        }
                    }
                }
                let page = Words(Some(es[i].block.iter()));
                let ghost before = bits@;
                proof {
                    lemma_pages_total(before);
                    e0.block.lemma_count();
                    Words::lemma_rank_ext(page, e0.block, 65536);
                    lemma_page_counts_push(before, page);
                }
                bits.push(page);
                ones = ones + count;
                proof {
                    assert forall|k: int| 0 <= k < bits@.len() implies (#[trigger] bits@[k]).wf() by {
                        if k < before.len() {
                            assert(bits@[k] == before[k]);
                        }
                    }
                    assert forall|q: nat, x: nat| #[trigger] page_has(bits@, q, x) == block_of(es@.take(i + 1), q).has(x) by {
                        assert(page_has(before, q, x) == block_of(pre, q).has(x));
                        if q < before.len() {
                            assert(bits@[q as int] == before[q as int]);
                        }
                    }
                }
            } else {
                proof {
                    e0.block.lemma_count_zero();
                    assert forall|q: nat, x: nat| #[trigger] page_has(bits@, q, x) == block_of(es@.take(i + 1), q).has(x) by {
                        assert(page_has(bits@, q, x) == block_of(pre, q).has(x));
                    }
                }
            }
            i = i + 1;
        }
        proof {
            assert(es@.take(es@.len() as int) =~= es@);
        }
        let r: Self = RawVec { ones, bits };
        proof {
            assert forall|p: nat| #[trigger] r.has(p) == entries_has(es@, p) by {
                if p < large() {
                    assert(page_has(r.bits@, p / 65536, p % 65536) == block_of(es@, p / 65536).has(p % 65536));
                }
            }
        }
        r
    }

    /// The intersection of two bit spaces, as the entries of their common blocks.
    pub fn and(&self, rhs: &Self) -> (r: Vec<Entry<T>>)
        requires
            self.wf(),
            rhs.wf(),
        ensures
            entries_wf(r@),
            forall|p: nat| #[trigger] entries_has(r@, p) == (self.has(p) && rhs.has(p)),
    {
        crate::bit_set::mask::and(&self.entries(), &rhs.entries())
    }

    /// The union of two bit spaces, as the entries of the blocks of either.
    pub fn or(&self, rhs: &Self) -> (r: Vec<Entry<T>>)
        requires
            self.wf(),
            rhs.wf(),
        ensures
            entries_wf(r@),
            forall|p: nat| #[trigger] entries_has(r@, p) == (self.has(p) || rhs.has(p)),
    {
        crate::bit_set::mask::or(&self.entries(), &rhs.entries())
    }

    /// The symmetric difference of two bit spaces, as the entries of the
    /// blocks of either.
    pub fn xor(&self, rhs: &Self) -> (r: Vec<Entry<T>>)
        requires
            self.wf(),
            rhs.wf(),
        ensures
            entries_wf(r@),
            forall|p: nat| #[trigger] entries_has(r@, p) == (self.has(p) != rhs.has(p)),
    {
        crate::bit_set::mask::xor(&self.entries(), &rhs.entries())
    }
}

impl<T: Word> Default for RawVec<Words<T>> {
    fn default() -> (r: Self)
        ensures
            r.wf(),
            forall|i: nat| !#[trigger] r.has(i),
    {
        Self::new()
    }
}

impl<T: Word> RawVec<Words<T>> {
    /// The bit space with the given positions set.
    pub fn from_slice(bits: &[u64]) -> (r: Self)
        requires
            forall|k: int| 0 <= k < bits@.len() ==> #[trigger] bits@[k] < large() && bits@[k] / 65536 < usize::MAX,
        ensures
            r.wf(),
            forall|j: nat| #[trigger] r.has(j) <==> exists|k: int| 0 <= k < bits@.len() && bits@[k] == j,
    {
        let mut set = Self::new();
        let mut k: usize = 0;
        while k < bits.len()
            invariant
                set.wf(),
                k <= bits@.len(),
                forall|k: int| 0 <= k < bits@.len() ==> #[trigger] bits@[k] < large() && bits@[k] / 65536 < usize::MAX,
                forall|j: nat| #[trigger] set.has(j) <==> exists|m: int| 0 <= m < k && bits@[m] == j,
            decreases bits@.len() - k,
        {
            let ghost before = set;
            set.insert(bits[k]);
            proof {
                assert forall|j: nat| #[trigger] set.has(j) <==> exists|m: int| 0 <= m < k + 1 && bits@[m] == j by {
                    if set.has(j) && j != bits@[k as int] {
                        assert(before.has(j));
                    }
                    if exists|m: int| 0 <= m < k + 1 && bits@[m] == j {
                        let m = choose|m: int| 0 <= m < k + 1 && bits@[m] == j;
                        if m < k {
                            assert(before.has(j));
                        }
                    }
                }
            }
            k = k + 1;
        }
        set
    }

    /// The bit space with the given positions set.
    pub fn from_vec(bits: Vec<u64>) -> (r: Self)
        requires
            forall|k: int| 0 <= k < bits@.len() ==> #[trigger] bits@[k] < large() && bits@[k] / 65536 < usize::MAX,
        ensures
            r.wf(),
            forall|j: nat| #[trigger] r.has(j) <==> exists|k: int| 0 <= k < bits@.len() && bits@[k] == j,
    {
        Self::from_slice(bits.as_slice())
    }
}

} // verus!
