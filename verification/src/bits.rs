//! Bit sequences made of words: reading, counting, ranking and selecting bits.

use vstd::prelude::*;
use crate::word::{Word, bit, lemma_bits_of_ops};

pub mod blocks;

verus! {

/// The number of set bits of `s` below position `i`.
pub open spec fn rank_of(s: Seq<bool>, i: nat) -> nat
    decreases i,
{
    if i == 0 {
        0
    } else {
        rank_of(s, (i - 1) as nat) + if s[i - 1] { 1nat } else { 0nat }
    }
}

/// Ranks are monotone and bounded by the positions.
pub proof fn lemma_rank_of_bounds(s: Seq<bool>, i: nat, n: nat)
    requires
        i <= n,
    ensures
        rank_of(s, i) <= rank_of(s, n),
        rank_of(s, n) - rank_of(s, i) <= n - i,
    decreases n,
{
    if n > i {
        lemma_rank_of_bounds(s, i, (n - 1) as nat);
    }
}

/// A set bit counts in the ranks of the positions after it.
proof fn lemma_rank_grows(s: Seq<bool>, p: nat, q: nat)
    requires
        p < q <= s.len(),
    ensures
        rank_of(s, q) >= rank_of(s, p) + if s[p as int] { 1nat } else { 0nat },
        q - rank_of(s, q) >= (p - rank_of(s, p)) + if s[p as int] { 0nat } else { 1nat },
    decreases q,
{
    if q > p + 1 {
        lemma_rank_grows(s, p, (q - 1) as nat);
        lemma_rank_of_bounds(s, (q - 1) as nat, q);
    }
}

/// `select1` inverts `rank1`: two set bits with as many set bits before
/// them are the same bit, so `select1` of the rank of a set bit is that bit;
/// the same holds of unset bits, `select0` and `rank0`.
pub proof fn lemma_select_rank(s: Seq<bool>, p: nat, q: nat)
    requires
        p < s.len(),
        q < s.len(),
        s[p as int] == s[q as int],
        s[p as int] ==> rank_of(s, p) == rank_of(s, q),
        !s[p as int] ==> p - rank_of(s, p) == q - rank_of(s, q),
    ensures
        p == q,
{
    if p < q {
        lemma_rank_grows(s, p, q);
    } else if q < p {
        lemma_rank_grows(s, q, p);
    }
}

/// A bit sequence, consisting of 1s and 0s.
pub trait Bits {
    /// The sequence is small enough to be addressed by `u64` positions.
    spec fn spec_wf(&self) -> bool;

    /// The bits, in order.
    spec fn bit_seq(&self) -> Seq<bool>;

    /// The number of bits.
    fn bits(&self) -> (r: u64)
        requires
            self.spec_wf(),
        ensures
            r == self.bit_seq().len(),
    ;

    /// Reads bit `i`; false when out of bounds.
    fn bit(&self, i: u64) -> (r: bool)
        requires
            self.spec_wf(),
        ensures
            r == (i < self.bit_seq().len() && self.bit_seq()[i as int]),
    ;

    /// Reads `len` bits from position `i` into a word, the bit at `i` lowest;
    /// the bits past the end read as unset.
    fn word<W: Word>(&self, i: u64, len: u64) -> (r: W)
        requires
            self.spec_wf(),
            i < self.bit_seq().len(),
            len <= W::spec_bits(),
            i + len <= u64::MAX,
        ensures
            forall|j: nat| #[trigger] bit(r.value(), j) == (j < len && i + j < self.bit_seq().len()
                && self.bit_seq()[i + j]),
    {
        let mut word = W::zero();
        let mut b: u64 = 0;
        proof {
            lemma_bits_of_ops(0, 0);
            W::lemma_width();
        }
        while b < len
            invariant
                self.spec_wf(),
                len <= W::spec_bits(),
                i + len <= u64::MAX,
                b <= len,
                forall|j: nat| #[trigger] bit(word.value(), j) == (j < b && i + j
                    < self.bit_seq().len() && self.bit_seq()[i + j]),
            decreases len - b,
        {
            if self.bit(i + b) {
                word.insert(b);
            }
            b = b + 1;
        }
        word
    }

    /// The number of set bits.
    fn count1(&self) -> (r: u64)
        requires
            self.spec_wf(),
        ensures
            r == rank_of(self.bit_seq(), self.bit_seq().len()),
    ;

    /// The number of set bits in `[i, j)`.
    fn rank1(&self, i: u64, j: u64) -> (r: u64)
        requires
            self.spec_wf(),
            i <= j <= self.bit_seq().len(),
        ensures
            r == rank_of(self.bit_seq(), j as nat) - rank_of(self.bit_seq(), i as nat),
    ;

    /// The number of unset bits.
    fn count0(&self) -> (r: u64)
        requires
            self.spec_wf(),
        ensures
            r == self.bit_seq().len() - rank_of(self.bit_seq(), self.bit_seq().len()),
    {
        proof {
            lemma_rank_of_bounds(self.bit_seq(), 0, self.bit_seq().len());
        }
        let n = self.bits();
        n - self.count1()
    }

    /// Returns true if every bit is set; true when empty.
    fn all(&self) -> (r: bool)
        requires
            self.spec_wf(),
        ensures
            r == (rank_of(self.bit_seq(), self.bit_seq().len()) == self.bit_seq().len()),
    {
        self.count0() == 0
    }

    /// Returns true if some bit is set; false when empty.
    fn any(&self) -> (r: bool)
        requires
            self.spec_wf(),
        ensures
            r == (rank_of(self.bit_seq(), self.bit_seq().len()) > 0),
    {
        self.count1() > 0
    }

    /// The number of unset bits in `[i, j)`.
    fn rank0(&self, i: u64, j: u64) -> (r: u64)
        requires
            self.spec_wf(),
            i <= j <= self.bit_seq().len(),
        ensures
            r == (j - i) - (rank_of(self.bit_seq(), j as nat) - rank_of(self.bit_seq(), i as nat)),
    {
        proof {
            lemma_rank_of_bounds(self.bit_seq(), i as nat, j as nat);
        }
        (j - i) - self.rank1(i, j)
    }

    /// Computes `rank0` and `rank1` of `[i, j)` at a time.
    fn ranks(&self, i: u64, j: u64) -> (r: Ranks)
        requires
            self.spec_wf(),
            i <= j <= self.bit_seq().len(),
        ensures
            r.rank1 == rank_of(self.bit_seq(), j as nat) - rank_of(self.bit_seq(), i as nat),
            r.rank0 == (j - i) - r.rank1,
    {
        proof {
            lemma_rank_of_bounds(self.bit_seq(), i as nat, j as nat);
        }
        let len = j - i;
        let rank1 = self.rank1(i, j);
        let rank0 = len - rank1;
        Ranks { rank0, rank1 }
    }

    /// The absolute difference of the set and unset bits in `[i, j)`.
    fn excess(&self, i: u64, j: u64) -> (r: u64)
        requires
            self.spec_wf(),
            i <= j <= self.bit_seq().len(),
        ensures
            r == (if rank_of(self.bit_seq(), j as nat) - rank_of(self.bit_seq(), i as nat) >= (j - i) - (rank_of(self.bit_seq(), j as nat) - rank_of(self.bit_seq(), i as nat)) {
                (rank_of(self.bit_seq(), j as nat) - rank_of(self.bit_seq(), i as nat)) - ((j - i) - (rank_of(self.bit_seq(), j as nat) - rank_of(self.bit_seq(), i as nat)))
            } else {
                ((j - i) - (rank_of(self.bit_seq(), j as nat) - rank_of(self.bit_seq(), i as nat))) - (rank_of(self.bit_seq(), j as nat) - rank_of(self.bit_seq(), i as nat))
            }),
    {
        self.ranks(i, j).excess()
    }

    /// The set bits minus the unset bits in `[i, j)`, if not negative.
    fn excess1(&self, i: u64, j: u64) -> (r: Option<u64>)
        requires
            self.spec_wf(),
            i <= j <= self.bit_seq().len(),
        ensures
            ({
                let one = rank_of(self.bit_seq(), j as nat) - rank_of(self.bit_seq(), i as nat);
                let zero = (j - i) - one;
                r == if one >= zero { Some((one - zero) as u64) } else { None::<u64> }
            }),
    {
        self.ranks(i, j).excess1()
    }

    /// The unset bits minus the set bits in `[i, j)`, if not negative.
    fn excess0(&self, i: u64, j: u64) -> (r: Option<u64>)
        requires
            self.spec_wf(),
            i <= j <= self.bit_seq().len(),
        ensures
            ({
                let one = rank_of(self.bit_seq(), j as nat) - rank_of(self.bit_seq(), i as nat);
                let zero = (j - i) - one;
                r == if zero >= one { Some((zero - one) as u64) } else { None::<u64> }
            }),
    {
        self.ranks(i, j).excess0()
    }

    /// The position of the set bit with `n` set bits before it, by binary search.
    fn search1(&self, n: u64) -> (r: Option<u64>)
        requires
            self.spec_wf(),
        ensures
            r is Some <==> n < rank_of(self.bit_seq(), self.bit_seq().len()),
            r matches Some(p) ==> p < self.bit_seq().len() && self.bit_seq()[p as int] && rank_of(self.bit_seq(),
                p as nat,
            ) == n,
    {
        let len = self.bits();
        if n < self.count1() {
            let ghost p = |k: u64| k <= len && rank_of(self.bit_seq(), k as nat) > n;
            proof {
                assert forall|a: u64, b: u64| a <= b <= len && #[trigger] p(a) implies #[trigger] p(b) by {
                    lemma_rank_of_bounds(self.bit_seq(), a as nat, b as nat);
                }
            }
            let pred = (|k: u64| -> (b: bool)
                requires
                    k <= len,
                    len == self.bit_seq().len(),
                    self.spec_wf(),
                ensures
                    b == p(k),
                { self.rank1(0, k) > n });
            let k = binary_search(0, len, pred, Ghost(p));
            proof {
                assert(k > 0) by {
                    if k == 0 {
                        assert(rank_of(self.bit_seq(), 0) == 0);
                    }
                }
                assert(!p((k - 1) as u64));
            }
            Some(k - 1)
        } else {
            None
        }
    }

    /// The position of the unset bit with `n` unset bits before it, by binary search.
    fn search0(&self, n: u64) -> (r: Option<u64>)
        requires
            self.spec_wf(),
        ensures
            r is Some <==> n < self.bit_seq().len() - rank_of(self.bit_seq(), self.bit_seq().len()),
            r matches Some(p) ==> p < self.bit_seq().len() && !self.bit_seq()[p as int] && p - rank_of(self.bit_seq(),
                p as nat,
            ) == n,
    {
        let len = self.bits();
        if n < self.count0() {
            let ghost p = |k: u64| k <= len && k - rank_of(self.bit_seq(), k as nat) > n;
            proof {
                assert forall|a: u64, b: u64| a <= b <= len && #[trigger] p(a) implies #[trigger] p(b) by {
                    lemma_rank_of_bounds(self.bit_seq(), a as nat, b as nat);
                }
                lemma_rank_of_bounds(self.bit_seq(), 0, len as nat);
            }
            let pred = (|k: u64| -> (b: bool)
                requires
                    k <= len,
                    len == self.bit_seq().len(),
                    self.spec_wf(),
                ensures
                    b == p(k),
                { self.rank0(0, k) > n });
            let k = binary_search(0, len, pred, Ghost(p));
            proof {
                assert(k > 0) by {
                    if k == 0 {
                        assert(rank_of(self.bit_seq(), 0) == 0);
                    }
                }
                assert(!p((k - 1) as u64));
                lemma_rank_of_bounds(self.bit_seq(), 0, (k - 1) as nat);
            }
            Some(k - 1)
        } else {
            None
        }
    }

    /// The position of the set bit with `n` set bits before it.
    fn select1(&self, n: u64) -> (r: Option<u64>)
        requires
            self.spec_wf(),
        ensures
            r is Some <==> n < rank_of(self.bit_seq(), self.bit_seq().len()),
            r matches Some(p) ==> p < self.bit_seq().len() && self.bit_seq()[p as int] && rank_of(self.bit_seq(),
                p as nat,
            ) == n,
    {
        self.search1(n)
    }

    /// The position of the unset bit with `n` unset bits before it.
    fn select0(&self, n: u64) -> (r: Option<u64>)
        requires
            self.spec_wf(),
        ensures
            r is Some <==> n < self.bit_seq().len() - rank_of(self.bit_seq(), self.bit_seq().len()),
            r matches Some(p) ==> p < self.bit_seq().len() && !self.bit_seq()[p as int] && p - rank_of(self.bit_seq(),
                p as nat,
            ) == n,
    {
        self.search0(n)
    }
}

/// Finds the smallest index `k` in `[i, j)` at which `f(k)` is true, where
/// `f(k)` implies `f(k + 1)` on that range; `j` if there is none.
fn binary_search<F: Fn(u64) -> bool>(i: u64, j: u64, f: F, Ghost(p): Ghost<spec_fn(u64) -> bool>) -> (r: u64)
    requires
        i <= j,
        forall|k: u64| i <= k < j ==> #[trigger] f.requires((k,)),
        forall|k: u64, b: bool| i <= k < j && #[trigger] f.ensures((k,), b) ==> b == p(k),
        forall|a: u64, b: u64| i <= a <= b < j && #[trigger] p(a) ==> #[trigger] p(b),
    ensures
        i <= r <= j,
        r < j ==> p(r),
        forall|k: u64| i <= k < r ==> !#[trigger] p(k),
{
    let mut i = i;
    let mut j = j;
    let ghost i0 = i;
    let ghost j0 = j;
    while i < j
        invariant
            i0 <= i <= j <= j0,
            j < j0 ==> p(j),
            forall|k: u64| i0 <= k < i ==> !#[trigger] p(k),
            forall|k: u64| i0 <= k < j0 ==> #[trigger] f.requires((k,)),
            forall|k: u64, b: bool| i0 <= k < j0 && #[trigger] f.ensures((k,), b) ==> b == p(k),
            forall|a: u64, b: u64| i0 <= a <= b < j0 && #[trigger] p(a) ==> #[trigger] p(b),
        decreases j - i,
    {
        let h = i + (j - i) / 2;
        if f(h) {
            j = h;  // f(j) == true
        } else {
            i = h + 1;  // f(i-1) == false
        }
    }
    i  // f(i-1) == false && f(i) (= f(j)) == true

}

/// The set and unset bits of a range, counted together.
#[derive(Clone, Copy)]
pub struct Ranks {
    pub rank0: u64,
    pub rank1: u64,
}

impl Ranks {
    /// `|rank1 - rank0|`.
    pub fn excess(self) -> (r: u64)
        ensures
            r == if self.rank1 >= self.rank0 { self.rank1 - self.rank0 } else { self.rank0 - self.rank1 },
    {
        let Ranks { rank0, rank1 } = self;
        if rank0 >= rank1 { rank0 - rank1 } else { rank1 - rank0 }
    }

    /// `rank1 - rank0`, if not negative.
    pub fn excess1(self) -> (r: Option<u64>)
        ensures
            r == if self.rank1 >= self.rank0 { Some((self.rank1 - self.rank0) as u64) } else { None::<u64> },
    {
        let Ranks { rank0, rank1 } = self;
        rank1.checked_sub(rank0)
    }

    /// `rank0 - rank1`, if not negative.
    pub fn excess0(self) -> (r: Option<u64>)
        ensures
            r == if self.rank0 >= self.rank1 { Some((self.rank0 - self.rank1) as u64) } else { None::<u64> },
    {
        let Ranks { rank0, rank1 } = self;
        rank0.checked_sub(rank1)
    }
}

/// A bit sequence whose bits can be set and cleared.
pub trait BitsMut: Bits {
    /// Sets bit `i`.
    fn set1(&mut self, i: u64)
        requires
            old(self).spec_wf(),
            i < old(self).bit_seq().len(),
        ensures
            final(self).spec_wf(),
            final(self).bit_seq() == old(self).bit_seq().update(i as int, true),
    ;

    /// Clears bit `i`.
    fn set0(&mut self, i: u64)
        requires
            old(self).spec_wf(),
            i < old(self).bit_seq().len(),
        ensures
            final(self).spec_wf(),
            final(self).bit_seq() == old(self).bit_seq().update(i as int, false),
    ;
}

/// A bit sequence of a fixed size.
pub trait Block: Clone + Bits + BitsMut + Sized {
    /// The number of bits of every block of this type.
    spec fn spec_block_bits() -> nat;

    /// Every block has `spec_block_bits` bits, and is well formed exactly
    /// when that number fits in a `u64`.
    proof fn lemma_block_bits(&self)
        ensures
            self.bit_seq().len() == Self::spec_block_bits(),
            self.spec_wf() <==> Self::spec_block_bits() <= u64::MAX,
    ;

    /// The number of bits of every block of this type.
    fn block_bits() -> (r: u64)
        requires
            Self::spec_block_bits() <= u64::MAX,
        ensures
            r == Self::spec_block_bits(),
    ;

    /// A block with no set bit.
    fn empty() -> (r: Self)
        ensures
            r.bit_seq().len() == Self::spec_block_bits(),
            forall|i: int| 0 <= i < r.bit_seq().len() ==> !#[trigger] r.bit_seq()[i],
    ;
}

} // verus!
