//! Dense storage of a bit space in words: word `q` holds the bits from
//! `q * T::BITS` on, up to the last word touched.

use vstd::prelude::*;
use crate::word::{Word, bit, ones, search, lemma_ones_set, lemma_ones_clear, lemma_bits_of_ops};
use crate::bits::{Bits, rank_of, lemma_rank_of_bounds};
use crate::bits::blocks::{words_bits, lemma_words_count, lemma_position, lemma_mul_lt};
use crate::bit_set::words::sum_ones;
use crate::bit_set::raw_vec::{RawVec, large};

verus! {

/// Bit `i` of the bit space held by the words `v`.
pub open spec fn dense_has<T: Word>(v: Seq<T>, i: nat) -> bool {
    i < v.len() * T::spec_bits() && words_bits(v)[i as int]
}

/// The number of set bits below `i` in the bit space held by `v`.
pub open spec fn dense_rank<T: Word>(v: Seq<T>, i: nat) -> nat
    decreases i,
{
    if i == 0 {
        0
    } else {
        dense_rank(v, (i - 1) as nat) + if dense_has(v, (i - 1) as nat) { 1nat } else { 0nat }
    }
}

/// The rank in the bit space is the rank of the bits of the words, up to
/// their end.
pub proof fn lemma_dense_rank<T: Word>(v: Seq<T>, i: nat)
    ensures
        dense_rank(v, i) == rank_of(
            words_bits(v),
            if i <= v.len() * T::spec_bits() { i } else { v.len() * T::spec_bits() },
        ),
    decreases i,
{
    if i > 0 {
        lemma_dense_rank(v, (i - 1) as nat);
    }
}

/// Appending a zero word changes neither the bits nor the count.
pub proof fn lemma_dense_push_zero<T: Word>(v: Seq<T>, z: T)
    requires
        z.value() == 0,
    ensures
        forall|j: nat| #[trigger] dense_has(v.push(z), j) == dense_has(v, j),
        sum_ones(v.push(z), v.len() + 1) == sum_ones(v, v.len()),
{
    let w = T::spec_bits();
    let u = v.push(z);
    T::lemma_width();
    lemma_bits_of_ops(0, 0);
    crate::word::lemma_ones_zero_above(0, 0, T::spec_bits());
    crate::bit_set::words::lemma_sum_ones_prefix(v, u, v.len());
    assert forall|j: nat| #[trigger] dense_has(u, j) == dense_has(v, j) by {
        lemma_position(j as int, w as int, v.len() as int);
        lemma_position(j as int, w as int, u.len() as int);
        assert(u.len() * w == v.len() * w + w) by (nonlinear_arith)
            requires
                u.len() == v.len() + 1,
        ;
        if j < v.len() * w {
            assert(u[(j / w) as int] == v[(j / w) as int]);
        }
    }
}

/// Replacing one word: the bits of that word change, the others stay.
pub proof fn lemma_dense_update<T: Word>(v: Seq<T>, q: int, x: T)
    requires
        0 <= q < v.len(),
    ensures
        forall|j: nat| #[trigger] dense_has(v.update(q, x), j) == if j / T::spec_bits() == q {
            j < v.len() * T::spec_bits() && bit(x.value(), j % T::spec_bits())
        } else {
            dense_has(v, j)
        },
        sum_ones(v.update(q, x), v.len()) + ones(v[q].value(), T::spec_bits()) == sum_ones(v, v.len())
            + ones(x.value(), T::spec_bits()),
{
    let w = T::spec_bits();
    T::lemma_width();
    lemma_sum_ones_update(v, q, x, v.len());
    assert forall|j: nat| #[trigger] dense_has(v.update(q, x), j) == if j / w == q {
        j < v.len() * w && bit(x.value(), j % w)
    } else {
        dense_has(v, j)
    } by {
        lemma_position(j as int, w as int, v.len() as int);
    }
}

/// The count after replacing one word.
proof fn lemma_sum_ones_update<T: Word>(v: Seq<T>, q: int, x: T, n: nat)
    requires
        0 <= q < v.len(),
        n <= v.len(),
    ensures
        sum_ones(v.update(q, x), n) + (if q < n { ones(v[q].value(), T::spec_bits()) } else { 0 })
            == sum_ones(v, n) + (if q < n { ones(x.value(), T::spec_bits()) } else { 0 }),
    decreases n,
{
    if n > 0 {
        lemma_sum_ones_update(v, q, x, (n - 1) as nat);
    }
}

/// The words of a bit space of `2^63` bits: a word index below `2^63 / w`
/// leaves room for the whole word.
proof fn lemma_word_room(i: nat, w: nat)
    requires
        w == 8 || w == 16 || w == 32 || w == 64,
        i < large(),
    ensures
        (i / w + 1) * w <= large(),
{
    if w == 8 {
        assert((i / 8 + 1) * 8 <= large());
    } else if w == 16 {
        assert((i / 16 + 1) * 16 <= large());
    } else if w == 32 {
        assert((i / 32 + 1) * 32 <= large());
    } else {
        assert((i / 64 + 1) * 64 <= large());
    }
}

impl<T: Word> RawVec<T> {
    /// The words fit in the bit space; `ones` counts their set bits.
    pub open spec fn wf(&self) -> bool {
        &&& self.bits@.len() * T::spec_bits() <= large()
        &&& self.ones == sum_ones(self.bits@, self.bits@.len())
    }

    /// Bit `i`.
    pub open spec fn has(&self, i: nat) -> bool {
        dense_has(self.bits@, i)
    }

    /// The number of set bits below `i`.
    pub open spec fn rank(&self, i: nat) -> nat {
        dense_rank(self.bits@, i)
    }

    /// Creates an empty bit space.
    pub fn new() -> (r: Self)
        ensures
            r.wf(),
            forall|i: nat| !#[trigger] r.has(i),
            r.ones == 0,
    {
        RawVec { ones: 0, bits: Vec::new() }
    }

    /// Shrinks the internal vector.
    pub fn shrink_to_fit(&mut self)
        ensures
            final(self).ones == old(self).ones,
            final(self).bits@ == old(self).bits@,
    {
        super::shrink_vec(&mut self.bits);
    }

    /// The number of bits of the bit space.
    pub fn size(&self) -> (r: u64)
        ensures
            r == large(),
    {
        0x8000_0000_0000_0000u64
    }

    /// Reads bit `i`.
    pub fn access(&self, i: u64) -> (r: bool)
        requires
            self.wf(),
            i < large(),
        ensures
            r == self.has(i as nat),
    {
        Bits::bit(&self.bits, i)
    }

    /// The number of set bits.
    pub fn count1(&self) -> (r: u64)
        requires
            self.wf(),
        ensures
            r == self.rank(large()),
    {
        proof {
            lemma_dense_rank(self.bits@, large());
            lemma_words_count(self.bits@);
        }
        self.ones
    }

    /// The number of unset bits.
    pub fn count0(&self) -> (r: u64)
        requires
            self.wf(),
        ensures
            r == large() - self.rank(large()),
    {
        proof {
            lemma_dense_rank(self.bits@, large());
            lemma_words_count(self.bits@);
            crate::bits::blocks::lemma_sum_ones_width(self.bits@, self.bits@.len());
        }
        self.size() - self.ones
    }

    /// The number of set bits below `i`.
    pub fn rank1(&self, i: u64) -> (r: u64)
        requires
            self.wf(),
            i <= large(),
        ensures
            r == self.rank(i as nat),
    {
        proof {
            lemma_dense_rank(self.bits@, i as nat);
            lemma_words_count(self.bits@);
        }
        let n = Bits::bits(&self.bits);
        if i <= n {
            Bits::rank1(&self.bits, 0, i)
        } else {
            self.ones
        }
    }

    /// The number of unset bits below `i`.
    pub fn rank0(&self, i: u64) -> (r: u64)
        requires
            self.wf(),
            i <= large(),
        ensures
            r == i - self.rank(i as nat),
    {
        proof {
            lemma_dense_rank(self.bits@, i as nat);
            lemma_rank_of_bounds(words_bits(self.bits@), 0, i as nat);
            lemma_rank_of_bounds(words_bits(self.bits@), 0, self.bits@.len() * T::spec_bits());
        }
        i - self.rank1(i)
    }

    /// The position of the set bit with `n` set bits before it.
    pub fn select1(&self, n: u64) -> (r: u64)
        requires
            self.wf(),
            n < self.rank(large()),
        ensures
            r < large(),
            self.has(r as nat),
            self.rank(r as nat) == n,
    {
        proof {
            lemma_dense_rank(self.bits@, large());
        }
        match Bits::select1(&self.bits, n) {
            Some(p) => {
                proof {
                    lemma_dense_rank(self.bits@, p as nat);
                }
                p
            },
            None => {
                proof {
                    assert(false);
                }
                0
            },
        }
    }

    /// The position of the unset bit with `n` unset bits before it.
    pub fn select0(&self, n: u64) -> (r: u64)
        requires
            self.wf(),
            n < large() - self.rank(large()),
        ensures
            r < large(),
            !self.has(r as nat),
            r - self.rank(r as nat) == n,
    {
        let size = self.size();
        let ghost p = |k: u64| k <= large() && k - self.rank(k as nat) > n;
        proof {
            assert forall|a: u64, b: u64| a <= b <= size && #[trigger] p(a) implies #[trigger] p(b) by {
                lemma_dense_rank_bounds(self.bits@, a as nat, b as nat);
            }
            lemma_dense_rank_bounds(self.bits@, 0, large());
        }
        let this: &Self = self;
        let pred = (|k: u64| -> (b: bool)
            requires
                k <= size,
                size == large(),
                this.wf(),
            ensures
                b == p(k),
            { this.rank0(k) > n });
        let k = search(size, pred, Ghost(p));
        proof {
            assert(p(size));
            assert(k > 0) by {
                if k == 0 {
                    assert(self.rank(0) == 0);
                }
            }
            assert(!p((k - 1) as u64));
            lemma_dense_rank_bounds(self.bits@, 0, (k - 1) as nat);
            assert(self.rank(k as nat) == self.rank((k - 1) as nat) + if self.has((k - 1) as nat) { 1nat } else { 0nat });
        }
        k - 1
    }

    /// Sets bit `i` and returns its previous value; the words up to the one
    /// of `i` are added as zero words when missing.
    pub fn insert(&mut self, i: u64) -> (prev: bool)
        requires
            old(self).wf(),
            i < large(),
            (i as nat) / T::spec_bits() < usize::MAX,
        ensures
            final(self).wf(),
            prev == old(self).has(i as nat),
            forall|j: nat| #[trigger] final(self).has(j) == (j == i || old(self).has(j)),
    {
        let w = T::bits();
        let q = i / w;
        let o = i % w;
        proof {
            lemma_word_room(i as nat, w as nat);
            lemma_position(i as int, w as int, 0);
        }
        let qi = q as usize;
        while self.bits.len() <= qi
            invariant
                self.wf(),
                qi == (i as nat) / T::spec_bits(),
                w == T::spec_bits(),
                (qi + 1) * w <= large(),
                forall|j: nat| #[trigger] self.has(j) == old(self).has(j),
            decreases qi + 1 - self.bits@.len(),
        {
            let ghost before = self.bits@;
            let ghost prior = *self;
            let z = T::zero();
            self.bits.push(z);
            proof {
                lemma_dense_push_zero(before, z);
                assert(self.bits@ == before.push(z));
                assert forall|j: nat| #[trigger] self.has(j) == old(self).has(j) by {
                    assert(dense_has(before.push(z), j) == dense_has(before, j));
                    assert(prior.has(j) == old(self).has(j));
                }
                assert(self.bits@.len() * w <= (qi + 1) * w) by (nonlinear_arith)
                    requires
                        self.bits@.len() <= qi + 1,
                ;
            }
        }
        let ghost v = self.bits@;
        let ghost mid = *self;
        proof {
            assert(mid.has(i as nat) == old(self).has(i as nat));
            lemma_mul_lt(qi as nat, o as nat, w as nat, v.len());
            crate::bits::blocks::lemma_words_bit(v, qi as nat, o as nat);
            assert(qi * w + o == i);
        }
        let prev = self.bits[qi].insert(o);
        proof {
            let x = self.bits@[qi as int];
            assert(self.bits@ == v.update(qi as int, x));
            lemma_dense_update(v, qi as int, x);
            lemma_ones_set(v[qi as int].value(), o, w as nat);
            crate::bits::blocks::lemma_sum_ones_width(self.bits@, self.bits@.len());
            assert(self.bits@.len() * w <= large());
        }
        if !prev {
            self.ones = self.ones + 1;
        }
        proof {
            assert forall|j: nat| #[trigger] self.has(j) == (j == i || old(self).has(j)) by {
                assert(mid.has(j) == old(self).has(j));
                lemma_position(j as int, w as int, v.len() as int);
                if j / (w as nat) == qi as nat && j < v.len() * w {
                    crate::bits::blocks::lemma_words_bit(v, qi as nat, j % (w as nat));
                    assert(j == i <==> j % (w as nat) == o as nat);
                }
            }
        }
        prev
    }

    /// Clears bit `i` and returns its previous value.
    pub fn remove(&mut self, i: u64) -> (prev: bool)
        requires
            old(self).wf(),
            i < large(),
        ensures
            final(self).wf(),
            prev == old(self).has(i as nat),
            forall|j: nat| #[trigger] final(self).has(j) == (j != i && old(self).has(j)),
    {
        let w = T::bits();
        let q = i / w;
        let o = i % w;
        proof {
            lemma_position(i as int, w as int, self.bits@.len() as int);
        }
        if q >= self.bits.len() as u64 {
            return false;
        }
        let qi = q as usize;
        let ghost v = self.bits@;
        proof {
            lemma_mul_lt(qi as nat, o as nat, w as nat, v.len());
            crate::bits::blocks::lemma_words_bit(v, qi as nat, o as nat);
            assert(qi * w + o == i);
        }
        let prev = self.bits[qi].remove(o);
        proof {
            let x = self.bits@[qi as int];
            assert(self.bits@ == v.update(qi as int, x));
            lemma_dense_update(v, qi as int, x);
            lemma_ones_clear(v[qi as int].value(), o, w as nat);
        }
        if prev {
            self.ones = self.ones - 1;
        }
        proof {
            assert forall|j: nat| #[trigger] self.has(j) == (j != i && old(self).has(j)) by {
                lemma_position(j as int, w as int, v.len() as int);
                if j / (w as nat) == qi as nat && j < v.len() * w {
                    crate::bits::blocks::lemma_words_bit(v, qi as nat, j % (w as nat));
                    assert(j == i <==> j % (w as nat) == o as nat);
                }
            }
        }
        prev
    }
}

/// Ranks are monotone and grow by at most one per position.
pub proof fn lemma_dense_rank_bounds<T: Word>(v: Seq<T>, i: nat, n: nat)
    requires
        i <= n,
    ensures
        dense_rank(v, i) <= dense_rank(v, n),
        dense_rank(v, n) - dense_rank(v, i) <= n - i,
    decreases n,
{
    if n > i {
        lemma_dense_rank_bounds(v, i, (n - 1) as nat);
    }
}

impl<T: Word> Default for RawVec<T> {
    fn default() -> (r: Self)
        ensures
            r.wf(),
            forall|i: nat| !#[trigger] r.has(i),
    {
        Self::new()
    }
}

impl<T: Word> RawVec<T> {
    /// The bit space with the given positions set.
    pub fn from_slice(bits: &[u64]) -> (r: Self)
        requires
            forall|k: int| 0 <= k < bits@.len() ==> #[trigger] bits@[k] < large() && (bits@[k] as nat) / T::spec_bits() < usize::MAX,
        ensures
            r.wf(),
            forall|j: nat| #[trigger] r.has(j) <==> exists|k: int| 0 <= k < bits@.len() && bits@[k] == j,
    {
        let mut set = Self::new();
        let mut k: usize = 0;
        while k < bits.len()
            invariant
                set.wf(),
                k <= bits@.len(),
                forall|k: int| 0 <= k < bits@.len() ==> #[trigger] bits@[k] < large() && (bits@[k] as nat) / T::spec_bits() < usize::MAX,
                forall|j: nat| #[trigger] set.has(j) <==> exists|m: int| 0 <= m < k && bits@[m] == j,
            decreases bits@.len() - k,
        {
            let ghost before = set;
            set.insert(bits[k]);
            proof {
                assert forall|j: nat| #[trigger] set.has(j) <==> exists|m: int| 0 <= m < k + 1 && bits@[m] == j by {
                    if set.has(j) && j != bits@[k as int] {
                        assert(before.has(j));
                    }
                    if exists|m: int| 0 <= m < k + 1 && bits@[m] == j {
                        let m = choose|m: int| 0 <= m < k + 1 && bits@[m] == j;
                        if m < k {
                            assert(before.has(j));
                        }
                    }
                }
            }
            k = k + 1;
        }
        set
    }

    /// The bit space with the given positions set.
    pub fn from_vec(bits: Vec<u64>) -> (r: Self)
        requires
            forall|k: int| 0 <= k < bits@.len() ==> #[trigger] bits@[k] < large() && (bits@[k] as nat) / T::spec_bits() < usize::MAX,
        ensures
            r.wf(),
            forall|j: nat| #[trigger] r.has(j) <==> exists|k: int| 0 <= k < bits@.len() && bits@[k] == j,
    {
        Self::from_slice(bits.as_slice())
    }
}

} // verus!
