//! One block of 65536 bits, held as words, or absent when known to be empty.

use vstd::prelude::*;
use vstd::arithmetic::div_mod::lemma_fundamental_div_mod_converse;
use crate::word::{Word, bit, ones, lemma_bits_of_ops, lemma_ones_bounds};
use crate::rrr::lemma_ones_zero;

verus! {

/// The number of set bits in the first `k` words of `v`.
pub open spec fn sum_ones<T: Word>(v: Seq<T>, k: nat) -> nat
    decreases k,
{
    if k == 0 {
        0
    } else {
        sum_ones(v, (k - 1) as nat) + ones(v[k - 1].value(), T::spec_bits())
    }
}

/// A block of 65536 bits: `None` when no bit is set yet, or exactly
/// `65536 / T::BITS` words.
#[derive(Clone, Debug, PartialEq, Eq)]
pub struct Words<T>(pub Option<Vec<T>>);

/// Words owned by a block.
pub type BoxWords<T> = Words<T>;

/// Words produced by combining blocks.
pub type CowWords<T> = Words<T>;

/// The number of words in a present block.
pub open spec fn words_len<T: Word>() -> nat {
    65536nat / T::spec_bits()
}

pub proof fn lemma_width<T: Word>()
    ensures
        T::spec_bits() == 8 || T::spec_bits() == 16 || T::spec_bits() == 32 || T::spec_bits()
            == 64,
        words_len::<T>() * T::spec_bits() == 65536,
        words_len::<T>() <= 8192,
        words_len::<T>() >= 1024,
{
    T::lemma_width();
}

/// `i == q * w + r` with `r < w` determines `q` and `r`.
pub proof fn lemma_split_index(i: nat, w: nat, q: nat, r: nat)
    requires
        0 < w,
        r < w,
        i == q * w + r,
    ensures
        i / w == q,
        i % w == r,
{
    lemma_fundamental_div_mod_converse(i as int, w as int, q as int, r as int);
}

proof fn lemma_mul_step(q: nat, w: nat)
    by (nonlinear_arith)
    ensures
        (q + 1) * w == q * w + w,
        q * w <= (q + 1) * w,
{
}

impl<T: Word> Words<T> {
    /// Absent blocks are empty; present blocks have their full length.
    pub open spec fn wf(self) -> bool {
        match self.0 {
            None => true,
            Some(v) => v@.len() == words_len::<T>(),
        }
    }

    /// The words, or nothing for an absent block.
    pub open spec fn words(self) -> Seq<T> {
        match self.0 {
            None => Seq::empty(),
            Some(v) => v@,
        }
    }

    /// Bit `i` of the block.
    pub open spec fn has(self, i: nat) -> bool {
        &&& i < 65536
        &&& i / T::spec_bits() < self.words().len()
        &&& bit(self.words()[(i / T::spec_bits()) as int].value(), i % T::spec_bits())
    }

    /// The number of set bits below `i`.
    pub open spec fn rank(self, i: nat) -> nat
        decreases i,
    {
        if i == 0 {
            0
        } else {
            self.rank((i - 1) as nat) + if self.has((i - 1) as nat) { 1nat } else { 0nat }
        }
    }

    /// The number of set bits.
    pub open spec fn count(self) -> nat {
        self.rank(65536)
    }

    /// The rank at a position inside word `q` is the ones of the words before
    /// it plus the ones of that word below the position.
    pub proof fn lemma_rank_at(self, q: nat, r: nat)
        requires
            self.wf(),
            self.0 is Some,
            q < words_len::<T>(),
            r <= T::spec_bits(),
        ensures
            self.rank(q * T::spec_bits() + r) == sum_ones(self.words(), q) + ones(
                self.words()[q as int].value(),
                r,
            ),
        decreases q, r,
    {
        let w = T::spec_bits();
        lemma_width::<T>();
        T::lemma_width();
        lemma_mul_step(q, w);
        if r > 0 {
            self.lemma_rank_at(q, (r - 1) as nat);
            lemma_split_index((q * w + r - 1) as nat, w, q, (r - 1) as nat);
            assert(q * w <= (words_len::<T>() - 1) * w) by (nonlinear_arith)
                requires
                    q < words_len::<T>(),
            ;
            lemma_mul_step((words_len::<T>() - 1) as nat, w);
        } else if q > 0 {
            self.lemma_rank_at((q - 1) as nat, w);
            lemma_mul_step((q - 1) as nat, w);
        }
    }

    /// The count of a present block is the sum of the ones of its words.
    pub proof fn lemma_count(self)
        requires
            self.wf(),
        ensures
            self.count() == sum_ones(self.words(), self.words().len()),
            self.0 is None ==> forall|i: nat| #![trigger self.rank(i)] self.rank(i) == 0,
    {
        let w = T::spec_bits();
        lemma_width::<T>();
        T::lemma_width();
        if self.0 is Some {
            let l = words_len::<T>();
            self.lemma_rank_at((l - 1) as nat, w);
            lemma_mul_step((l - 1) as nat, w);
        } else {
            assert forall|i: nat| #![trigger self.rank(i)] self.rank(i) == 0 by {
                self.lemma_rank_none(i);
            }
        }
    }

    proof fn lemma_rank_none(self, i: nat)
        requires
            self.0 is None,
            T::spec_bits() > 0,
        ensures
            self.rank(i) == 0,
        decreases i,
    {
        assert(self.words().len() == 0);
        if i > 0 {
            self.lemma_rank_none((i - 1) as nat);
            assert(!self.has((i - 1) as nat));
        }
    }
}


/// Converts a bit index into a word index and an offset in that word.
pub fn address(i: u64, block_size: u64) -> (r: (usize, u64))
    requires
        block_size > 0,
        i / block_size <= usize::MAX,
    ensures
        r.0 == i / block_size,
        r.1 == i % block_size,
        i == r.0 * block_size + r.1,
{
    proof {
        vstd::arithmetic::div_mod::lemma_fundamental_div_mod(i as int, block_size as int);
        vstd::arithmetic::mul::lemma_mul_is_commutative(block_size as int, (i / block_size) as int);
    }
    proof {
        crate::word::lemma_fits_usize(i / block_size);
    }
    let index: usize = crate::word::cast(i / block_size);
    let offset = i % block_size;
    (index, offset)
}

/// Words that all equal `x` hold `k` times its ones in the first `k` of them.
pub proof fn lemma_sum_ones_same<T: Word>(v: Seq<T>, x: T, k: nat)
    requires
        k <= v.len(),
        forall|m: int| 0 <= m < k ==> #[trigger] v[m] == x,
    ensures
        sum_ones(v, k) == k * ones(x.value(), T::spec_bits()),
    decreases k,
{
    if k > 0 {
        lemma_sum_ones_same(v, x, (k - 1) as nat);
        let c = ones(x.value(), T::spec_bits());
        assert(v[k - 1] == x);
        assert(sum_ones(v, k) == sum_ones(v, (k - 1) as nat) + c);
        assert(k * c == ((k - 1) as nat) * c + c) by (nonlinear_arith)
            requires
                k > 0,
        ;
    } else {
        assert(k * ones(x.value(), T::spec_bits()) == 0) by (nonlinear_arith)
            requires
                k == 0,
        ;
    }
}

/// The sum of the first `k` word counts grows by one word at a time.
pub proof fn lemma_sum_ones_bounds<T: Word>(v: Seq<T>, k: nat)
    requires
        k <= v.len(),
    ensures
        sum_ones(v, k) <= 64 * k,
        forall|j: nat| j <= k ==> #[trigger] sum_ones(v, j) <= sum_ones(v, k),
    decreases k,
{
    T::lemma_width();
    if k > 0 {
        lemma_sum_ones_bounds(v, (k - 1) as nat);
        lemma_ones_bounds(v[k - 1].value(), 0, T::spec_bits());
    }
}

/// When the words hold no set bit at all, no word holds one.
pub proof fn lemma_sum_ones_zero<T: Word>(v: Seq<T>, k: nat)
    requires
        k <= v.len(),
        sum_ones(v, k) == 0,
    ensures
        forall|q: int, j: nat|
            0 <= q < k && j < T::spec_bits() ==> !#[trigger] bit(v[q].value(), j),
    decreases k,
{
    if k > 0 {
        lemma_sum_ones_zero(v, (k - 1) as nat);
        lemma_ones_zero(v[k - 1].value(), T::spec_bits());
    }
}

impl<T: Word> Words<T> {
    /// Two blocks that differ at most at bit `i` have ranks that differ by
    /// the change of that bit.
    pub proof fn lemma_rank_update(a: Self, b: Self, i: nat, n: nat)
        requires
            forall|j: nat| j != i ==> #[trigger] a.has(j) == b.has(j),
        ensures
            b.rank(n) + (if i < n && a.has(i) { 1nat } else { 0nat }) == a.rank(n) + (if i < n
                && b.has(i) { 1nat } else { 0nat }),
        decreases n,
    {
        if n > 0 {
            Self::lemma_rank_update(a, b, i, (n - 1) as nat);
        }
    }

    /// Ranks are monotone and bounded by the position.
    pub proof fn lemma_rank_bounds(self, i: nat, n: nat)
        requires
            i <= n,
        ensures
            self.rank(i) <= self.rank(n),
            self.rank(n) - self.rank(i) <= n - i,
        decreases n,
    {
        if n > i {
            self.lemma_rank_bounds(i, (n - 1) as nat);
        }
    }

    /// Two blocks with the same bits have the same ranks.
    pub proof fn lemma_rank_ext(a: Self, b: Self, n: nat)
        requires
            forall|j: nat| j < n ==> #[trigger] a.has(j) == b.has(j),
        ensures
            a.rank(n) == b.rank(n),
        decreases n,
    {
        if n > 0 {
            Self::lemma_rank_ext(a, b, (n - 1) as nat);
        }
    }

    /// Past the end of the block the rank stays at the count.
    pub proof fn lemma_rank_past_end(self, n: nat)
        requires
            n >= 65536,
        ensures
            self.rank(n) == self.count(),
        decreases n,
    {
        if n > 65536 {
            self.lemma_rank_past_end((n - 1) as nat);
        }
    }

    /// The complement of a block has the unset bits of the block as ranks.
    pub proof fn lemma_rank_complement(a: Self, b: Self, n: nat)
        requires
            forall|j: nat| #[trigger] b.has(j) == (j < 65536 && !a.has(j)),
            n <= 65536,
        ensures
            b.rank(n) == n - a.rank(n),
            a.rank(n) <= n,
        decreases n,
    {
        if n > 0 {
            Self::lemma_rank_complement(a, b, (n - 1) as nat);
            assert(b.has((n - 1) as nat) == !a.has((n - 1) as nat));
        }
    }

    /// A block that counts no set bit has no set bit.
    pub proof fn lemma_count_zero(self)
        requires
            self.count() == 0,
        ensures
            forall|j: nat| !#[trigger] self.has(j),
    {
        assert forall|j: nat| !#[trigger] self.has(j) by {
            if self.has(j) {
                assert(self.rank(j + 1) == self.rank(j) + 1);
                self.lemma_rank_bounds(j + 1, 65536);
            }
        }
    }
}

impl<T: Word> BoxWords<T> {
    /// Returns an absent block.
    pub fn empty() -> (r: Self)
        ensures
            r.wf(),
            r.0 is None,
            r.count() == 0,
            forall|i: nat| !#[trigger] r.has(i),
    {
        let r = Words(None);
        proof {
            T::lemma_width();
            r.lemma_count();
        }
        r
    }

    /// Constructs a present block with every word set to `value`.
    pub fn splat(value: T) -> (r: Self)
        ensures
            r.wf(),
            r.0 is Some,
            forall|k: int| 0 <= k < words_len::<T>() ==> #[trigger] r.words()[k] == value,
            r.count() == words_len::<T>() * ones(value.value(), T::spec_bits()),
    {
        let w = T::bits();
        let len = (65536 / w) as usize;
        let mut v: Vec<T> = Vec::new();
        while v.len() < len
            invariant
                len == words_len::<T>(),
                v@.len() <= len,
                forall|k: int| 0 <= k < v@.len() ==> #[trigger] v@[k] == value,
            decreases len - v@.len(),
        {
            v.push(value);
        }
        let r = Words(Some(v));
        proof {
            r.lemma_count();
            lemma_sum_ones_same(r.words(), value, words_len::<T>());
        }
        r
    }

    /// The number of words held.
    pub fn len(&self) -> (r: usize)
        ensures
            r == self.words().len(),
    {
        match &self.0 {
            None => 0,
            Some(vec) => vec.len(),
        }
    }

    /// Returns true when no word is held.
    pub fn is_empty(&self) -> (r: bool)
        ensures
            r == (self.words().len() == 0),
    {
        self.len() == 0
    }

    /// The words held, in order.
    pub fn iter(&self) -> (r: Vec<T>)
        ensures
            r@ == self.words(),
    {
        match &self.0 {
            None => Vec::new(),
            Some(v) => {
                let mut out: Vec<T> = Vec::new();
                let mut k: usize = 0;
                while k < v.len()
                    invariant
                        k <= v@.len(),
                        out@ == v@.subrange(0, k as int),
                    decreases v@.len() - k,
                {
                    out.push(v[k]);
                    k = k + 1;
                    proof {
                        assert(out@ =~= v@.subrange(0, k as int));
                    }
                }
                proof {
                    assert(out@ =~= v@);
                }
                out
            },
        }
    }
}

impl<T: Word> Words<T> {
    /// Constructs a present block from `vec`, cut or padded with zero words to
    /// the full length.
    pub fn from_vec(vec: Vec<T>) -> (r: Self)
        ensures
            r.wf(),
            r.0 is Some,
            forall|k: int|
                0 <= k < words_len::<T>() ==> #[trigger] r.words()[k].value() == if k < vec@.len() {
                    vec@[k].value()
                } else {
                    0
                },
    {
        let w = T::bits();
        let len = (65536 / w) as usize;
        let mut v: Vec<T> = Vec::new();
        while v.len() < len
            invariant
                len == words_len::<T>(),
                v@.len() <= len,
                forall|k: int|
                    0 <= k < v@.len() ==> #[trigger] v@[k].value() == if k < vec@.len() {
                        vec@[k].value()
                    } else {
                        0
                    },
            decreases len - v@.len(),
        {
            if v.len() < vec.len() {
                v.push(vec[v.len()]);
            } else {
                v.push(T::zero());
            }
        }
        Words(Some(v))
    }

    /// The words of a present block, or nothing.
    pub fn as_ref(&self) -> (r: Option<&Vec<T>>)
        ensures
            r == match self.0 {
                None => None,
                Some(ref v) => Some(v),
            },
    {
        self.0.as_ref()
    }

    /// The words of a present block, to be changed in place, or nothing.
    pub fn as_mut(&mut self) -> (r: Option<&mut Vec<T>>)
        ensures
            (match old(self).0 {
                None => final(self).0 is None && r is None,
                Some(v) => final(self).0 is Some && r is Some && *r.unwrap() == v && *final(r.unwrap())
                    == final(self).0.unwrap(),
            }),
    {
        self.0.as_mut()
    }

    /// The number of bits of a block.
    pub fn size(&self) -> (r: u64)
        ensures
            r == 65536,
    {
        crate::bit_set::SHORT_BIT_MAX
    }

    /// Reads bit `i`.
    pub fn access(&self, i: u64) -> (r: bool)
        requires
            self.wf(),
            i < 65536,
        ensures
            r == self.has(i as nat),
    {
        let w = T::bits();
        let (index, offset) = address(i, w);
        match &self.0 {
            None => false,
            Some(v) => {
                proof {
                    lemma_width::<T>();
                    vstd::arithmetic::div_mod::lemma_div_is_ordered(i as int, 65536, w as int);
                }
                v[index].access(offset)
            },
        }
    }

    /// The number of set bits.
    pub fn count1(&self) -> (r: u64)
        requires
            self.wf(),
        ensures
            r == self.count(),
            r <= 65536,
    {
        let w = T::bits();
        proof {
            T::lemma_width();
            self.lemma_count();
            self.lemma_rank_bounds(0, 65536);
        }
        match &self.0 {
            None => 0,
            Some(v) => {
                let mut c: u64 = 0;
                let mut k: usize = 0;
                while k < v.len()
                    invariant
                        k <= v@.len(),
                        v@.len() == words_len::<T>(),
                        w == T::spec_bits(),
                        c == sum_ones(v@, k as nat),
                    decreases v@.len() - k,
                {
                    proof {
                        lemma_width::<T>();
                        lemma_sum_ones_bounds(v@, k as nat + 1);
                    }
                    c = c + v[k].count1();
                    k = k + 1;
                }
                c
            },
        }
    }

    /// The number of unset bits.
    pub fn count0(&self) -> (r: u64)
        requires
            self.wf(),
        ensures
            r == 65536 - self.count(),
    {
        self.size() - self.count1()
    }

    /// The number of set bits below `i`.
    pub fn rank1(&self, i: u64) -> (r: u64)
        requires
            self.wf(),
            i <= 65536,
        ensures
            r == self.rank(i as nat),
    {
        let w = T::bits();
        proof {
            T::lemma_width();
            lemma_width::<T>();
            self.lemma_count();
            vstd::arithmetic::div_mod::lemma_div_is_ordered(i as int, 65536, w as int);
        }
        match &self.0 {
            None => 0,
            Some(v) => {
                let (index, offset) = address(i, w);
                let mut c: u64 = 0;
                let mut k: usize = 0;
                while k < index
                    invariant
                        k <= index <= v@.len(),
                        v@.len() == words_len::<T>(),
                        w == T::spec_bits(),
                        c == sum_ones(v@, k as nat),
                    decreases index - k,
                {
                    proof {
                        lemma_width::<T>();
                        lemma_sum_ones_bounds(v@, k as nat + 1);
                    }
                    c = c + v[k].count1();
                    k = k + 1;
                }
                proof {
                    lemma_sum_ones_bounds(v@, k as nat);
                }
                if index < v.len() {
                    proof {
                        self.lemma_rank_at(index as nat, offset as nat);
                    }
                    c + v[index].rank1(offset)
                } else {
                    proof {
                        assert(i == 65536) by (nonlinear_arith)
                            requires
                                i == index * w + offset,
                                offset < w,
                                index == words_len::<T>(),
                                words_len::<T>() * w == 65536,
                                i <= 65536,
                        ;
                    }
                    c
                }
            },
        }
    }

    /// The number of unset bits below `i`.
    pub fn rank0(&self, i: u64) -> (r: u64)
        requires
            self.wf(),
            i <= 65536,
        ensures
            r == i - self.rank(i as nat),
    {
        proof {
            self.lemma_rank_bounds(0, i as nat);
        }
        i - self.rank1(i)
    }
}


impl<T: Word> Words<T> {
    /// The position of the set bit with `n` set bits before it.
    pub fn select1(&self, n: u64) -> (r: u64)
        requires
            self.wf(),
            n < self.count(),
        ensures
            r < 65536,
            self.has(r as nat),
            self.rank(r as nat) == n,
    {
        let w = T::bits();
        proof {
            lemma_width::<T>();
            self.lemma_count();
        }
        let v = self.0.as_ref().unwrap();
        let mut m: u64 = n;
        let mut k: usize = 0;
        while k < v.len()
            invariant
                self.wf(),
                self.0 == Some(*v),
                k <= v@.len(),
                v@.len() == words_len::<T>(),
                w == T::spec_bits(),
                sum_ones(v@, k as nat) + m == n,
                n < sum_ones(v@, v@.len()),
            decreases v@.len() - k,
        {
            proof {
                lemma_sum_ones_bounds(v@, v@.len());
                lemma_width::<T>();
            }
            let c = v[k].count1();
            if m < c {
                let s = v[k].select1(m);
                proof {
                    self.lemma_rank_at(k as nat, s as nat);
                    lemma_mul_step(k as nat, w as nat);
                    assert(k * w + s < 65536) by (nonlinear_arith)
                        requires
                            k < words_len::<T>(),
                            s < w,
                            words_len::<T>() * w == 65536,
                    ;
                    lemma_split_index((k * w + s) as nat, w as nat, k as nat, s as nat);
                }
                return (k as u64) * w + s;
            }
            m = m - c;
            k = k + 1;
        }
        proof {
            assert(false);
        }
        0
    }

    /// The position of the unset bit with `n` unset bits before it.
    pub fn select0(&self, n: u64) -> (r: u64)
        requires
            self.wf(),
            n < 65536 - self.count(),
        ensures
            r < 65536,
            !self.has(r as nat),
            r - self.rank(r as nat) == n,
    {
        let w = T::bits();
        proof {
            lemma_width::<T>();
            self.lemma_count();
        }
        match &self.0 {
            None => {
                proof {
                    assert(self.rank(n as nat) == 0);
                    assert(self.words().len() == 0);
                }
                n
            },
            Some(v) => {
                let mut m: u64 = n;
                let mut k: usize = 0;
                while k < v.len()
                    invariant
                        self.wf(),
                        self.0 == Some(*v),
                        k <= v@.len(),
                        v@.len() == words_len::<T>(),
                        w == T::spec_bits(),
                        k * w - sum_ones(v@, k as nat) + m == n,
                        sum_ones(v@, k as nat) <= k * w,
                        n < 65536 - sum_ones(v@, v@.len()),
                    decreases v@.len() - k,
                {
                    proof {
                        lemma_width::<T>();
                        lemma_sum_ones_bounds(v@, v@.len());
                        lemma_mul_step(k as nat, w as nat);
                        lemma_ones_bounds(v@[k as int].value(), 0, w as nat);
                    }
                    let c = v[k].count0();
                    if m < c {
                        let s = v[k].select0(m);
                        proof {
                            self.lemma_rank_at(k as nat, s as nat);
                            assert(k * w + s < 65536) by (nonlinear_arith)
                                requires
                                    k < words_len::<T>(),
                                    s < w,
                                    words_len::<T>() * w == 65536,
                            ;
                            lemma_split_index((k * w + s) as nat, w as nat, k as nat, s as nat);
                            lemma_ones_bounds(v@[k as int].value(), 0, s as nat);
                        }
                        return (k as u64) * w + s;
                    }
                    m = m - c;
                    k = k + 1;
                }
                proof {
                    assert(k * w == 65536);
                    assert(false);
                }
                0
            },
        }
    }

    /// Makes the block present, with zero words when it was absent.
    fn init(&mut self)
        requires
            old(self).wf(),
        ensures
            final(self).wf(),
            final(self).0 is Some,
            forall|j: nat| #[trigger] final(self).has(j) == old(self).has(j),
    {
        if self.0.is_none() {
            proof {
                lemma_width::<T>();
            }
            let z = T::zero();
            *self = Self::splat(z);
            proof {
                lemma_bits_of_ops(0, 0);
                assert forall|j: nat| #[trigger] self.has(j) == old(self).has(j) by {
                    if j < 65536 {
                        vstd::arithmetic::div_mod::lemma_div_is_ordered(j as int, 65536, T::spec_bits() as int);
                    }
                }
            }
        }
    }

    /// Sets bit `i` and returns its previous value.
    pub fn insert(&mut self, i: u64) -> (prev: bool)
        requires
            old(self).wf(),
            i < 65536,
        ensures
            final(self).wf(),
            final(self).0 is Some,
            prev == old(self).has(i as nat),
            forall|j: nat| #[trigger] final(self).has(j) == (j == i || old(self).has(j)),
            final(self).count() == old(self).count() + if prev { 0nat } else { 1nat },
    {
        let w = T::bits();
        proof {
            lemma_width::<T>();
            vstd::arithmetic::div_mod::lemma_div_is_ordered(i as int, 65536, w as int);
        }
        self.init();
        let ghost mid = *self;
        let (index, offset) = address(i, w);
        let mut v = self.0.take().unwrap();
        let mut word = v[index];
        let prev = word.insert(offset);
        v.set(index, word);
        *self = Words(Some(v));
        proof {
            assert(mid.has(i as nat) == old(self).has(i as nat));
            assert(prev == mid.has(i as nat));
            assert forall|j: nat| #[trigger] self.has(j) == (j == i || mid.has(j)) by {
                if j < 65536 {
                    vstd::arithmetic::div_mod::lemma_fundamental_div_mod(j as int, w as int);
                    vstd::arithmetic::div_mod::lemma_div_is_ordered(j as int, 65536, w as int);
                    if j / (w as nat) == index as nat {
                        if j % (w as nat) == offset as nat {
                            assert(j == i);
                        } else {
                            assert(j != i);
                        }
                    } else {
                        assert(j != i);
                    }
                } else {
                    assert(j != i);
                }
            }
            Self::lemma_rank_update(*old(self), *self, i as nat, 65536);
        }
        prev
    }

    /// Clears bit `i` and returns its previous value.
    pub fn remove(&mut self, i: u64) -> (prev: bool)
        requires
            old(self).wf(),
            i < 65536,
        ensures
            final(self).wf(),
            final(self).0 is Some == old(self).0 is Some,
            prev == old(self).has(i as nat),
            forall|j: nat| #[trigger] final(self).has(j) == (j != i && old(self).has(j)),
            final(self).count() + if prev { 1nat } else { 0nat } == old(self).count(),
    {
        let w = T::bits();
        proof {
            lemma_width::<T>();
            vstd::arithmetic::div_mod::lemma_div_is_ordered(i as int, 65536, w as int);
        }
        if self.0.is_none() {
            return false;
        }
        let (index, offset) = address(i, w);
        let mut v = self.0.take().unwrap();
        let mut word = v[index];
        let prev = word.remove(offset);
        v.set(index, word);
        *self = Words(Some(v));
        proof {
            assert forall|j: nat| #[trigger] self.has(j) == (j != i && old(self).has(j)) by {
                if j < 65536 {
                    vstd::arithmetic::div_mod::lemma_fundamental_div_mod(j as int, w as int);
                    vstd::arithmetic::div_mod::lemma_div_is_ordered(j as int, 65536, w as int);
                    if j / (w as nat) == index as nat {
                        if j % (w as nat) == offset as nat {
                            assert(j == i);
                        } else {
                            assert(j != i);
                        }
                    } else {
                        assert(j != i);
                    }
                } else {
                    assert(j != i);
                }
            }
            Self::lemma_rank_update(*old(self), *self, i as nat, 65536);
        }
        prev
    }
}


/// The bitwise operators that combine two blocks.
#[derive(Clone, Copy, PartialEq, Eq)]
pub enum MaskOp {
    And,
    Or,
    Xor,
}

/// The bit that `op` makes of bits `a` and `b`.
pub open spec fn apply_op(op: MaskOp, a: bool, b: bool) -> bool {
    match op {
        MaskOp::And => a && b,
        MaskOp::Or => a || b,
        MaskOp::Xor => a != b,
    }
}

/// Positions below 65536 fall into a word of a present block.
pub proof fn lemma_word_index<T: Word>(j: nat)
    requires
        j < 65536,
    ensures
        0 <= j / T::spec_bits() < words_len::<T>(),
        0 <= j % T::spec_bits() < T::spec_bits(),
{
    lemma_width::<T>();
    vstd::arithmetic::div_mod::lemma_div_pos_is_pos(j as int, T::spec_bits() as int);
    vstd::arithmetic::div_mod::lemma_mod_pos_bound(j as int, T::spec_bits() as int);
    let w = T::spec_bits();
    vstd::arithmetic::div_mod::lemma_fundamental_div_mod(j as int, w as int);
    let q = j / w;
    let l = words_len::<T>();
    assert(q < l) by (nonlinear_arith)
        requires
            j == w * q + j % w,
            j % w >= 0,
            l * w == 65536,
            j < 65536,
            w > 0,
    ;
}

/// Combines two full rows of words with `op`, word by word, and counts the
/// set bits of the result.
fn zip_words<T: Word>(lhs: Vec<T>, rhs: &Vec<T>, op: MaskOp) -> (res: (Vec<T>, u64))
    requires
        lhs@.len() == words_len::<T>(),
        rhs@.len() == words_len::<T>(),
    ensures
        res.0@.len() == words_len::<T>(),
        forall|k: int, j: nat|
            0 <= k < words_len::<T>() ==> #[trigger] bit(res.0@[k].value(), j) == apply_op(
                op,
                bit(lhs@[k].value(), j),
                bit(rhs@[k].value(), j),
            ),
        res.1 == sum_ones(res.0@, words_len::<T>()),
{
    let mut out = lhs;
    let mut acc: u64 = 0;
    let mut k: usize = 0;
    proof {
        lemma_width::<T>();
    }
    while k < out.len()
        invariant
            out@.len() == words_len::<T>(),
            rhs@.len() == words_len::<T>(),
            k <= out@.len(),
            forall|q: int| k <= q < out@.len() ==> #[trigger] out@[q] == lhs@[q],
            forall|q: int, j: nat|
                0 <= q < k ==> #[trigger] bit(out@[q].value(), j) == apply_op(
                    op,
                    bit(lhs@[q].value(), j),
                    bit(rhs@[q].value(), j),
                ),
            acc == sum_ones(out@, k as nat),
        decreases out@.len() - k,
    {
        let x = out[k].to_u64();
        let y = rhs[k].to_u64();
        proof {
            lemma_bits_of_ops(x, y);
        }
        let z = match op {
            MaskOp::And => x & y,
            MaskOp::Or => x | y,
            MaskOp::Xor => x ^ y,
        };
        let word = T::from_u64(z);
        let ghost before = out@;
        out.set(k, word);
        proof {
            assert forall|q: nat| q <= k implies sum_ones(out@, q) == sum_ones(before, q) by {
                lemma_sum_ones_prefix(out@, before, q);
            }
            lemma_sum_ones_bounds(out@, k as nat + 1);
            lemma_width::<T>();
        }
        acc = acc + word.count1();
        k = k + 1;
    }
    (out, acc)
}

/// Sums over a prefix only depend on that prefix.
pub proof fn lemma_sum_ones_prefix<T: Word>(a: Seq<T>, b: Seq<T>, q: nat)
    requires
        q <= a.len(),
        q <= b.len(),
        forall|k: int| 0 <= k < q ==> #[trigger] a[k] == b[k],
    ensures
        sum_ones(a, q) == sum_ones(b, q),
    decreases q,
{
    if q > 0 {
        lemma_sum_ones_prefix(a, b, (q - 1) as nat);
    }
}

impl<T: Word> Words<T> {
    /// The bits of a block combined from words by `op`.
    proof fn lemma_has_zip(a: Self, b: Self, r: Self, op: MaskOp)
        requires
            a.wf(),
            b.wf(),
            r.wf(),
            a.0 is Some,
            b.0 is Some,
            r.0 is Some,
            forall|k: int, j: nat|
                0 <= k < words_len::<T>() ==> #[trigger] bit(r.words()[k].value(), j) == apply_op(
                    op,
                    bit(a.words()[k].value(), j),
                    bit(b.words()[k].value(), j),
                ),
        ensures
            forall|j: nat| #[trigger] r.has(j) == (j < 65536 && apply_op(op, a.has(j), b.has(j))),
    {
        assert forall|j: nat| #[trigger] r.has(j) == (j < 65536 && apply_op(op, a.has(j), b.has(j))) by {
            if j < 65536 {
                lemma_word_index::<T>(j);
                let q = (j / T::spec_bits()) as int;
                assert(r.words().len() == words_len::<T>());
                assert(a.words().len() == words_len::<T>());
                assert(b.words().len() == words_len::<T>());
                assert(bit(r.words()[q].value(), j % T::spec_bits()) == apply_op(
                    op,
                    bit(a.words()[q].value(), j % T::spec_bits()),
                    bit(b.words()[q].value(), j % T::spec_bits()),
                ));
            }
        }
    }

    /// Blocks with the same words have the same bits.
    pub proof fn lemma_has_words(a: Self, b: Self)
        requires
            a.words() == b.words(),
            a.0 is Some == b.0 is Some,
            b.wf(),
        ensures
            a.wf(),
            forall|x: nat| #[trigger] a.has(x) == b.has(x),
    {
    }

    /// An absent block has no set bit.
    pub proof fn lemma_has_absent(self)
        requires
            self.0 is None,
        ensures
            forall|j: nat| !#[trigger] self.has(j),
    {
        assert forall|j: nat| !#[trigger] self.has(j) by {
            lemma_width::<T>();
            vstd::arithmetic::div_mod::lemma_div_pos_is_pos(j as int, T::spec_bits() as int);
        }
    }

    /// A present block whose words hold no set bit has no set bit.
    proof fn lemma_has_none_set(r: Self)
        requires
            r.wf(),
            r.0 is Some,
            sum_ones(r.words(), words_len::<T>()) == 0,
        ensures
            forall|j: nat| !#[trigger] r.has(j),
    {
        lemma_sum_ones_zero(r.words(), words_len::<T>());
        assert forall|j: nat| !#[trigger] r.has(j) by {
            if j < 65536 {
                lemma_word_index::<T>(j);
                let q = (j / T::spec_bits()) as int;
                assert(r.words().len() == words_len::<T>());
                assert(!bit(r.words()[q].value(), j % T::spec_bits()));
            }
        }
    }

    /// The intersection of two blocks; absent when it holds no set bit.
    pub fn bitand(self, that: Self) -> (r: Self)
        requires
            self.wf(),
            that.wf(),
        ensures
            r.wf(),
            forall|j: nat| #[trigger] r.has(j) == (self.has(j) && that.has(j)),
            r.0 is None <==> r.count() == 0,
    {
        proof {
            lemma_width::<T>();
        }
        let ghost a = self;
        let ghost b = that;
        match (self.0, that.0) {
            (Some(lhs), Some(rhs)) => {
                let (out, ones) = zip_words(lhs, &rhs, MaskOp::And);
                let r = Words(Some(out));
                proof {
                    Self::lemma_has_zip(a, b, r, MaskOp::And);
                    assert(a.0 is Some);
                    assert forall|j: nat| #[trigger] r.has(j) == (a.has(j) && b.has(j)) by {
                        assert(r.has(j) == (j < 65536 && apply_op(MaskOp::And, a.has(j), b.has(j))));
                    }
                }
                if ones > 0 {
                    proof {
                        r.lemma_count();
                    }
                    r
                } else {
                    let e: Self = Words(None);
                    proof {
                        Self::lemma_has_none_set(r);
                        e.lemma_has_absent();
                        e.lemma_count();
                        assert(e.rank(65536) == 0);
                        assert forall|j: nat| !(#[trigger] a.has(j) && b.has(j)) by {
                            assert(!r.has(j));
                        }
                    }
                    e
                }
            },
            _ => {
                let e: Self = Words(None);
                proof {
                    e.lemma_has_absent();
                    e.lemma_count();
                    assert(e.rank(65536) == 0);
                    if a.0 is None {
                        a.lemma_has_absent();
                    } else {
                        b.lemma_has_absent();
                    }
                }
                e
            },
        }
    }

    /// The union of two blocks.
    pub fn bitor(self, that: Self) -> (r: Self)
        requires
            self.wf(),
            that.wf(),
        ensures
            r.wf(),
            forall|j: nat| #[trigger] r.has(j) == (self.has(j) || that.has(j)),
            r.0 is None <==> (self.0 is None && that.0 is None),
    {
        proof {
            lemma_width::<T>();
        }
        let ghost a = self;
        let ghost b = that;
        match (self.0, that.0) {
            (None, None) => {
                let e: Self = Words(None);
                proof {
                    a.lemma_has_absent();
                    b.lemma_has_absent();
                    e.lemma_has_absent();
                }
                e
            },
            (Some(buf), None) => {
                proof {
                    b.lemma_has_absent();
                }
                Words(Some(buf))
            },
            (None, Some(buf)) => {
                proof {
                    a.lemma_has_absent();
                }
                Words(Some(buf))
            },
            (Some(lhs), Some(rhs)) => {
                let (out, _) = zip_words(lhs, &rhs, MaskOp::Or);
                let r = Words(Some(out));
                proof {
                    Self::lemma_has_zip(a, b, r, MaskOp::Or);
                }
                r
            },
        }
    }

    /// The symmetric difference of two blocks.
    pub fn bitxor(self, that: Self) -> (r: Self)
        requires
            self.wf(),
            that.wf(),
        ensures
            r.wf(),
            forall|j: nat| #[trigger] r.has(j) == (self.has(j) != that.has(j)),
            r.0 is None <==> (self.0 is None && that.0 is None),
    {
        proof {
            lemma_width::<T>();
        }
        let ghost a = self;
        let ghost b = that;
        match (self.0, that.0) {
            (None, None) => {
                let e: Self = Words(None);
                proof {
                    a.lemma_has_absent();
                    b.lemma_has_absent();
                    e.lemma_has_absent();
                }
                e
            },
            (Some(buf), None) => {
                proof {
                    b.lemma_has_absent();
                }
                Words(Some(buf))
            },
            (None, Some(buf)) => {
                proof {
                    a.lemma_has_absent();
                }
                Words(Some(buf))
            },
            (Some(lhs), Some(rhs)) => {
                let (out, _) = zip_words(lhs, &rhs, MaskOp::Xor);
                let r = Words(Some(out));
                proof {
                    Self::lemma_has_zip(a, b, r, MaskOp::Xor);
                }
                r
            },
        }
    }

    /// The complement of a block; absent when it holds no set bit.
    pub fn not(self) -> (r: Self)
        requires
            self.wf(),
        ensures
            r.wf(),
            forall|j: nat| #[trigger] r.has(j) == (j < 65536 && !self.has(j)),
            r.0 is None <==> r.count() == 0,
            r.count() == 65536 - self.count(),
            self.0 is None ==> r.0 is Some,
    {
        proof {
            lemma_width::<T>();
        }
        let ghost a = self;
        let full = Self::splat(T::ones_word());
        let r = match self.0 {
            Some(buf) => {
                let (out, ones) = zip_words(buf, full.0.as_ref().unwrap(), MaskOp::Xor);
                let r = Words(Some(out));
                proof {
                    Self::lemma_has_zip(a, full, r, MaskOp::Xor);
                    assert forall|j: nat| j < 65536 implies #[trigger] full.has(j) by {
                        lemma_word_index::<T>(j);
                    }
                }
                if ones > 0 {
                    proof {
                        r.lemma_count();
                    }
                    r
                } else {
                    let e: Self = Words(None);
                    proof {
                        Self::lemma_has_none_set(r);
                        e.lemma_has_absent();
                        e.lemma_count();
                        assert(e.rank(65536) == 0);
                        assert forall|j: nat| j < 65536 implies #[trigger] a.has(j) by {
                            assert(!r.has(j));
                            assert(full.has(j));
                        }
                    }
                    e
                }
            },
            None => {
                proof {
                    a.lemma_has_absent();
                    assert forall|j: nat| #[trigger] full.has(j) == (j < 65536 && !a.has(j)) by {
                        if j < 65536 {
                            lemma_word_index::<T>(j);
                        }
                    }
                    assert(full.has(0));
                    assert(full.rank(0) == 0);
                    assert(full.rank(1) == 1);
                    full.lemma_rank_bounds(1, 65536);
                }
                full
            },
        };
        proof {
            Self::lemma_rank_complement(a, r, 65536);
        }
        r
    }
}


impl<T: Word> Default for Words<T> {
    fn default() -> (r: Self)
        ensures
            r.0 is None,
    {
        Words(None)
    }
}

} // verus!
