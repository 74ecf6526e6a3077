//! Reading, counting, ranking and removing bits, shared by words, word
//! vectors, blocks and bit sets.

use vstd::prelude::*;
use crate::bits::{Bits, BitsMut, rank_of, lemma_rank_of_bounds};
use crate::word::{Word, bit, ones, search};
use crate::bit_set::{BitSet, Entry};
use crate::bit_set::words::Words;
use crate::bit_set::raw_vec::{RawVec, large};

verus! {

/// A fixed number of bits, each of which can be read.
pub trait Access {
    /// The value is well formed.
    spec fn access_wf(&self) -> bool;

    /// The bits, in order.
    spec fn access_bits(&self) -> Seq<bool>;

    /// The number of bits.
    fn size(&self) -> (r: u64)
        requires
            self.access_wf(),
        ensures
            r == self.access_bits().len(),
    ;

    /// Reads bit `i`.
    fn access(&self, i: u64) -> (r: bool)
        requires
            self.access_wf(),
            i < self.access_bits().len(),
        ensures
            r == self.access_bits()[i as int],
    ;
}

/// Counting the set and the unset bits.
pub trait Count: Access {
    /// The number of set bits.
    fn count1(&self) -> (r: u64)
        requires
            self.access_wf(),
        ensures
            r == rank_of(self.access_bits(), self.access_bits().len()),
    ;

    /// The number of unset bits.
    fn count0(&self) -> (r: u64)
        requires
            self.access_wf(),
        ensures
            r == self.access_bits().len() - rank_of(self.access_bits(), self.access_bits().len()),
    {
        proof {
            lemma_rank_of_bounds(self.access_bits(), 0, self.access_bits().len());
        }
        self.size() - self.count1()
    }
}

/// Counting the bits below a position, and what follows from it.
pub trait Rank: Count {
    /// The number of set bits in `[0, i)`.
    fn rank1(&self, i: u64) -> (r: u64)
        requires
            self.access_wf(),
            i <= self.access_bits().len(),
        ensures
            r == rank_of(self.access_bits(), i as nat),
    ;

    /// The number of unset bits in `[0, i)`.
    fn rank0(&self, i: u64) -> (r: u64)
        requires
            self.access_wf(),
            i <= self.access_bits().len(),
        ensures
            r == i - rank_of(self.access_bits(), i as nat),
    {
        proof {
            lemma_rank_of_bounds(self.access_bits(), 0, i as nat);
        }
        i - self.rank1(i)
    }

    /// `|rank1(i) - rank0(i)|`.
    fn excess(&self, i: u64) -> (r: u64)
        requires
            self.access_wf(),
            i <= self.access_bits().len(),
        ensures
            ({
                let one = rank_of(self.access_bits(), i as nat);
                let zero = i - one;
                r == if one >= zero { one - zero } else { zero - one }
            }),
    {
        let rank1 = self.rank1(i);
        let rank0 = self.rank0(i);
        if rank1 >= rank0 { rank1 - rank0 } else { rank0 - rank1 }
    }

    /// `rank1(i) - rank0(i)`, when the set bits are not fewer.
    fn excess1(&self, i: u64) -> (r: u64)
        requires
            self.access_wf(),
            i <= self.access_bits().len(),
            rank_of(self.access_bits(), i as nat) >= i - rank_of(self.access_bits(), i as nat),
        ensures
            r == rank_of(self.access_bits(), i as nat) - (i - rank_of(self.access_bits(), i as nat)),
    {
        let rank1 = self.rank1(i);
        let rank0 = self.rank0(i);
        rank1 - rank0
    }

    /// `rank0(i) - rank1(i)`, when the unset bits are not fewer.
    fn excess0(&self, i: u64) -> (r: u64)
        requires
            self.access_wf(),
            i <= self.access_bits().len(),
            i - rank_of(self.access_bits(), i as nat) >= rank_of(self.access_bits(), i as nat),
        ensures
            r == (i - rank_of(self.access_bits(), i as nat)) - rank_of(self.access_bits(), i as nat),
    {
        let rank1 = self.rank1(i);
        let rank0 = self.rank0(i);
        rank0 - rank1
    }

    /// The position of the set bit with `n` set bits before it, by binary search.
    fn search1(&self, n: u64) -> (r: u64)
        requires
            self.access_wf(),
            n < rank_of(self.access_bits(), self.access_bits().len()),
        ensures
            r < self.access_bits().len(),
            self.access_bits()[r as int],
            rank_of(self.access_bits(), r as nat) == n,
    {
        let size = self.size();
        let ghost s = self.access_bits();
        let ghost p = |k: u64| k <= size && rank_of(s, k as nat) > n;
        proof {
            assert forall|a: u64, b: u64| a <= b <= size && #[trigger] p(a) implies #[trigger] p(b) by {
                lemma_rank_of_bounds(s, a as nat, b as nat);
            }
        }
        let pred = (|k: u64| -> (b: bool)
            requires
                k <= size,
                size == self.access_bits().len(),
                self.access_wf(),
            ensures
                b == p(k),
            { self.rank1(k) > n });
        let k = search(size, pred, Ghost(p));
        proof {
            assert(p(size));
            assert(k > 0) by {
                if k == 0 {
                    assert(rank_of(s, 0) == 0);
                }
            }
            assert(!p((k - 1) as u64));
        }
        k - 1
    }

    /// The position of the unset bit with `n` unset bits before it, by binary search.
    fn search0(&self, n: u64) -> (r: u64)
        requires
            self.access_wf(),
            n < self.access_bits().len() - rank_of(self.access_bits(), self.access_bits().len()),
        ensures
            r < self.access_bits().len(),
            !self.access_bits()[r as int],
            r - rank_of(self.access_bits(), r as nat) == n,
    {
        let size = self.size();
        let ghost s = self.access_bits();
        let ghost p = |k: u64| k <= size && k - rank_of(s, k as nat) > n;
        proof {
            assert forall|a: u64, b: u64| a <= b <= size && #[trigger] p(a) implies #[trigger] p(b) by {
                lemma_rank_of_bounds(s, a as nat, b as nat);
            }
            lemma_rank_of_bounds(s, 0, size as nat);
        }
        let pred = (|k: u64| -> (b: bool)
            requires
                k <= size,
                size == self.access_bits().len(),
                self.access_wf(),
            ensures
                b == p(k),
            { self.rank0(k) > n });
        let k = search(size, pred, Ghost(p));
        proof {
            assert(p(size));
            assert(k > 0) by {
                if k == 0 {
                    assert(rank_of(s, 0) == 0);
                }
            }
            assert(!p((k - 1) as u64));
            lemma_rank_of_bounds(s, 0, (k - 1) as nat);
        }
        k - 1
    }
}

/// Clearing single bits.
pub trait Remove: Access {
    /// Clears bit `i` and returns its previous value.
    fn remove(&mut self, i: u64) -> (prev: bool)
        requires
            old(self).access_wf(),
            i < old(self).access_bits().len(),
        ensures
            final(self).access_wf(),
            prev == old(self).access_bits()[i as int],
            final(self).access_bits() == old(self).access_bits().update(i as int, false),
    ;
}

/// The bits of a word, lowest first.
pub open spec fn word_bits(x: u64, w: nat) -> Seq<bool> {
    Seq::new(w, |j: int| bit(x, j as nat))
}

/// Counting the ones of a word is ranking its bits.
proof fn lemma_ones_rank(x: u64, w: nat, i: nat)
    requires
        i <= w,
    ensures
        ones(x, i) == rank_of(word_bits(x, w), i),
    decreases i,
{
    if i > 0 {
        lemma_ones_rank(x, w, (i - 1) as nat);
    }
}

impl<W: Word> Access for W {
    open spec fn access_wf(&self) -> bool {
        true
    }

    open spec fn access_bits(&self) -> Seq<bool> {
        word_bits(self.value(), W::spec_bits())
    }

    fn size(&self) -> (r: u64) {
        W::bits()
    }

    fn access(&self, i: u64) -> (r: bool) {
        Word::access(*self, i)
    }
}

impl<W: Word> Count for W {
    fn count1(&self) -> (r: u64) {
        proof {
            lemma_ones_rank(self.value(), W::spec_bits(), W::spec_bits());
        }
        Word::count1(*self)
    }
}

impl<W: Word> Rank for W {
    fn rank1(&self, i: u64) -> (r: u64) {
        proof {
            lemma_ones_rank(self.value(), W::spec_bits(), i as nat);
        }
        Word::rank1(*self, i)
    }
}

impl<W: Word> Remove for W {
    fn remove(&mut self, i: u64) -> (prev: bool) {
        let prev = Word::remove(self, i);
        proof {
            assert(self.access_bits() =~= old(self).access_bits().update(i as int, false));
        }
        prev
    }
}

impl<T: Word> Access for Vec<T> {
    open spec fn access_wf(&self) -> bool {
        self.spec_wf()
    }

    open spec fn access_bits(&self) -> Seq<bool> {
        self.bit_seq()
    }

    fn size(&self) -> (r: u64) {
        Bits::bits(self)
    }

    fn access(&self, i: u64) -> (r: bool) {
        Bits::bit(self, i)
    }
}

impl<T: Word> Count for Vec<T> {
    fn count1(&self) -> (r: u64) {
        Bits::count1(self)
    }
}

impl<T: Word> Rank for Vec<T> {
    fn rank1(&self, i: u64) -> (r: u64) {
        Bits::rank1(self, 0, i)
    }
}

impl<T: Word> Remove for Vec<T> {
    fn remove(&mut self, i: u64) -> (prev: bool) {
        let prev = Bits::bit(self, i);
        BitsMut::set0(self, i);
        prev
    }
}

/// The bits of a block, in order.
pub open spec fn block_bits<T: Word>(b: Words<T>) -> Seq<bool> {
    Seq::new(65536, |j: int| b.has(j as nat))
}

/// The rank of a block is the rank of its bits.
proof fn lemma_block_rank<T: Word>(b: Words<T>, i: nat)
    requires
        i <= 65536,
    ensures
        b.rank(i) == rank_of(block_bits(b), i),
    decreases i,
{
    if i > 0 {
        lemma_block_rank(b, (i - 1) as nat);
    }
}

impl<T: Word> Access for Words<T> {
    open spec fn access_wf(&self) -> bool {
        self.wf()
    }

    open spec fn access_bits(&self) -> Seq<bool> {
        block_bits(*self)
    }

    fn size(&self) -> (r: u64) {
        Words::size(self)
    }

    fn access(&self, i: u64) -> (r: bool) {
        Words::access(self, i)
    }
}

impl<T: Word> Count for Words<T> {
    fn count1(&self) -> (r: u64) {
        proof {
            lemma_block_rank(*self, 65536);
        }
        Words::count1(self)
    }
}

impl<T: Word> Rank for Words<T> {
    fn rank1(&self, i: u64) -> (r: u64) {
        proof {
            lemma_block_rank(*self, i as nat);
        }
        Words::rank1(self, i)
    }
}

impl<T: Word> Remove for Words<T> {
    fn remove(&mut self, i: u64) -> (prev: bool) {
        let prev = Words::remove(self, i);
        proof {
            assert(block_bits(*self) =~= block_bits(*old(self)).update(i as int, false));
        }
        prev
    }
}

/// The bits of the whole bit space of a bit set, in order.
pub open spec fn space_bits<T: Word>(v: RawVec<Entry<T>>) -> Seq<bool> {
    Seq::new(large(), |p: int| v.has(p as nat))
}

/// The rank of a bit space is the rank of its bits.
proof fn lemma_space_rank<T: Word>(v: RawVec<Entry<T>>, i: nat)
    requires
        i <= large(),
    ensures
        v.rank(i) == rank_of(space_bits(v), i),
    decreases i,
{
    if i > 0 {
        lemma_space_rank(v, (i - 1) as nat);
    }
}

impl<T: Word> Access for RawVec<Entry<T>> {
    open spec fn access_wf(&self) -> bool {
        self.wf()
    }

    open spec fn access_bits(&self) -> Seq<bool> {
        space_bits(*self)
    }

    fn size(&self) -> (r: u64) {
        RawVec::<Entry<T>>::size(self)
    }

    fn access(&self, i: u64) -> (r: bool) {
        RawVec::<Entry<T>>::access(self, i)
    }
}

impl<T: Word> Count for RawVec<Entry<T>> {
    fn count1(&self) -> (r: u64) {
        proof {
            lemma_space_rank(*self, large());
        }
        RawVec::<Entry<T>>::count1(self)
    }
}

impl<T: Word> Rank for RawVec<Entry<T>> {
    fn rank1(&self, i: u64) -> (r: u64) {
        proof {
            lemma_space_rank(*self, i as nat);
        }
        RawVec::<Entry<T>>::rank1(self, i)
    }
}

impl<T: Word> Remove for RawVec<Entry<T>> {
    fn remove(&mut self, i: u64) -> (prev: bool) {
        let prev = RawVec::<Entry<T>>::remove(self, i);
        proof {
            assert(space_bits(*self) =~= space_bits(*old(self)).update(i as int, false));
        }
        prev
    }
}

/// The bits of the whole bit space of dense blocks, in order.
pub open spec fn page_space_bits<T: Word>(v: RawVec<Words<T>>) -> Seq<bool> {
    Seq::new(large(), |p: int| v.has(p as nat))
}

/// The rank of a dense bit space is the rank of its bits.
proof fn lemma_page_space_rank<T: Word>(v: RawVec<Words<T>>, i: nat)
    requires
        i <= large(),
    ensures
        v.rank(i) == rank_of(page_space_bits(v), i),
    decreases i,
{
    if i > 0 {
        lemma_page_space_rank(v, (i - 1) as nat);
    }
}

impl<T: Word> Access for RawVec<Words<T>> {
    open spec fn access_wf(&self) -> bool {
        self.wf()
    }

    open spec fn access_bits(&self) -> Seq<bool> {
        page_space_bits(*self)
    }

    fn size(&self) -> (r: u64) {
        RawVec::<Words<T>>::size(self)
    }

    fn access(&self, i: u64) -> (r: bool) {
        RawVec::<Words<T>>::access(self, i)
    }
}

impl<T: Word> Count for RawVec<Words<T>> {
    fn count1(&self) -> (r: u64) {
        proof {
            lemma_page_space_rank(*self, large());
        }
        RawVec::<Words<T>>::count1(self)
    }
}

impl<T: Word> Rank for RawVec<Words<T>> {
    fn rank1(&self, i: u64) -> (r: u64) {
        proof {
            lemma_page_space_rank(*self, i as nat);
        }
        RawVec::<Words<T>>::rank1(self, i)
    }
}

impl<T: Word> Remove for RawVec<Words<T>> {
    fn remove(&mut self, i: u64) -> (prev: bool) {
        let prev = RawVec::<Words<T>>::remove(self, i);
        proof {
            assert(page_space_bits(*self) =~= page_space_bits(*old(self)).update(i as int, false));
        }
        prev
    }
}

/// The bits of the whole bit space of dense words, in order.
pub open spec fn word_space_bits<T: Word>(v: RawVec<T>) -> Seq<bool> {
    Seq::new(large(), |p: int| v.has(p as nat))
}

/// The rank of a bit space of dense words is the rank of its bits.
proof fn lemma_word_space_rank<T: Word>(v: RawVec<T>, i: nat)
    requires
        i <= large(),
    ensures
        v.rank(i) == rank_of(word_space_bits(v), i),
    decreases i,
{
    if i > 0 {
        lemma_word_space_rank(v, (i - 1) as nat);
    }
}

impl<T: Word> Access for RawVec<T> {
    open spec fn access_wf(&self) -> bool {
        self.wf()
    }

    open spec fn access_bits(&self) -> Seq<bool> {
        word_space_bits(*self)
    }

    fn size(&self) -> (r: u64) {
        RawVec::<T>::size(self)
    }

    fn access(&self, i: u64) -> (r: bool) {
        RawVec::<T>::access(self, i)
    }
}

impl<T: Word> Count for RawVec<T> {
    fn count1(&self) -> (r: u64) {
        proof {
            lemma_word_space_rank(*self, large());
        }
        RawVec::<T>::count1(self)
    }
}

impl<T: Word> Rank for RawVec<T> {
    fn rank1(&self, i: u64) -> (r: u64) {
        proof {
            lemma_word_space_rank(*self, i as nat);
        }
        RawVec::<T>::rank1(self, i)
    }
}

impl<T: Word> Remove for RawVec<T> {
    fn remove(&mut self, i: u64) -> (prev: bool) {
        let prev = RawVec::<T>::remove(self, i);
        proof {
            assert(word_space_bits(*self) =~= word_space_bits(*old(self)).update(i as int, false));
        }
        prev
    }
}

impl<T: Word> Access for BitSet<T> {
    open spec fn access_wf(&self) -> bool {
        self.wf()
    }

    open spec fn access_bits(&self) -> Seq<bool> {
        space_bits(self.0)
    }

    fn size(&self) -> (r: u64) {
        BitSet::size(self)
    }

    fn access(&self, i: u64) -> (r: bool) {
        BitSet::access(self, i)
    }
}

impl<T: Word> Count for BitSet<T> {
    fn count1(&self) -> (r: u64) {
        proof {
            lemma_space_rank(self.0, large());
        }
        BitSet::count1(self)
    }
}

impl<T: Word> Rank for BitSet<T> {
    fn rank1(&self, i: u64) -> (r: u64) {
        proof {
            lemma_space_rank(self.0, i as nat);
        }
        BitSet::rank1(self, i)
    }
}

impl<T: Word> Remove for BitSet<T> {
    fn remove(&mut self, i: u64) -> (prev: bool) {
        let ghost before = old(self).0;
        let prev = BitSet::remove(self, i);
        proof {
            assert forall|j: nat| #[trigger] self.0.has(j) == (j != i && before.has(j)) by {
                assert(self.has(j) == (j != i && old(self).has(j)));
            }
            assert(space_bits(self.0) =~= space_bits(before).update(i as int, false));
        }
        prev
    }
}

} // verus!
