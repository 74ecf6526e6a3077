//! Slices, vectors and arrays of words as bit sequences, and their blockwise
//! set operations.

use vstd::prelude::*;
use vstd::arithmetic::div_mod::lemma_fundamental_div_mod;
use crate::word::{Word, bit, ones, fits, lemma_ones_bounds, lemma_bits_of_ops, extract, lemma_shl_bits};
use crate::bit_set::words::{sum_ones, lemma_split_index};
use crate::bits::{Bits, BitsMut, Block, rank_of, lemma_rank_of_bounds};

verus! {

/// The bits of the words `v`, each word least significant bit first.
pub open spec fn words_bits<T: Word>(v: Seq<T>) -> Seq<bool> {
    Seq::new(
        v.len() * T::spec_bits(),
        |i: int| bit(v[i / (T::spec_bits() as int)].value(), (i % (T::spec_bits() as int)) as nat),
    )
}

/// Bounds on a position `q * w + r` inside `n` words of `w` bits.
pub proof fn lemma_mul_lt(q: nat, r: nat, w: nat, n: nat)
    by (nonlinear_arith)
    requires
        q < n,
        r < w,
    ensures
        q * w + r < n * w,
        q * w + w <= n * w,
        (q + 1) * w == q * w + w,
{
}

/// Bit `r` of word `q` is bit `q * w + r` of the sequence.
pub proof fn lemma_words_bit<T: Word>(v: Seq<T>, q: nat, r: nat)
    requires
        q < v.len(),
        r < T::spec_bits(),
    ensures
        q * T::spec_bits() + r < v.len() * T::spec_bits(),
        words_bits(v)[(q * T::spec_bits() + r) as int] == bit(v[q as int].value(), r),
{
    let w = T::spec_bits();
    T::lemma_width();
    lemma_mul_lt(q, r, w, v.len());
    lemma_split_index(q * w + r, w, q, r);
}

/// The rank at a position inside word `q` is the ones of the words before it
/// plus the ones of that word below the position.
pub proof fn lemma_words_rank<T: Word>(v: Seq<T>, q: nat, r: nat)
    requires
        q < v.len(),
        r <= T::spec_bits(),
    ensures
        rank_of(words_bits(v), q * T::spec_bits() + r) == sum_ones(v, q) + ones(
            v[q as int].value(),
            r,
        ),
    decreases q, r,
{
    let w = T::spec_bits();
    T::lemma_width();
    if r > 0 {
        lemma_words_rank(v, q, (r - 1) as nat);
        lemma_words_bit(v, q, (r - 1) as nat);
        assert(q * w + r - 1 + 1 == q * w + r);
    } else if q > 0 {
        lemma_words_rank(v, (q - 1) as nat, w);
        lemma_mul_lt((q - 1) as nat, 0, w, v.len());
    }
}

/// The rank of the whole sequence is the sum of the ones of its words.
pub proof fn lemma_words_count<T: Word>(v: Seq<T>)
    ensures
        rank_of(words_bits(v), v.len() * T::spec_bits()) == sum_ones(v, v.len()),
{
    let w = T::spec_bits();
    T::lemma_width();
    if v.len() > 0 {
        lemma_words_rank(v, (v.len() - 1) as nat, w);
        lemma_mul_lt((v.len() - 1) as nat, 0, w, v.len());
    }
}

/// The ones of `k` words are at most their bits.
pub proof fn lemma_sum_ones_width<T: Word>(v: Seq<T>, k: nat)
    requires
        k <= v.len(),
    ensures
        sum_ones(v, k) <= k * T::spec_bits(),
    decreases k,
{
    T::lemma_width();
    if k > 0 {
        lemma_sum_ones_width(v, (k - 1) as nat);
        lemma_ones_bounds(v[k - 1].value(), 0, T::spec_bits());
        lemma_mul_lt((k - 1) as nat, 0, T::spec_bits(), k);
    }
}

/// Splits a position into a word index and an offset, and places it before
/// or after the end of the words.
pub proof fn lemma_position(i: int, w: int, n: int)
    requires
        i >= 0,
        w > 0,
        n >= 0,
    ensures
        i == (i / w) * w + i % w,
        0 <= i % w < w,
        0 <= i / w,
        (i / w < n) == (i < n * w),
        i <= n * w ==> i / w <= n,
        i / w == n && i <= n * w ==> i % w == 0,
{
    lemma_fundamental_div_mod(i, w);
    vstd::arithmetic::div_mod::lemma_mod_pos_bound(i, w);
    vstd::arithmetic::div_mod::lemma_div_pos_is_pos(i, w);
    vstd::arithmetic::mul::lemma_mul_is_commutative(w, i / w);
    let q = i / w;
    let r = i % w;
    assert((q < n) == (i < n * w)) by (nonlinear_arith)
        requires
            i == w * q + r,
            0 <= r < w,
            w > 0,
    ;
    assert(i <= n * w ==> q <= n) by (nonlinear_arith)
        requires
            i == w * q + r,
            0 <= r < w,
            w > 0,
    ;
    assert(q == n && i <= n * w ==> r == 0) by (nonlinear_arith)
        requires
            i == w * q + r,
            0 <= r < w,
            w > 0,
    ;
}

/// The number of set bits in the first `k` words.
fn count_words<T: Word>(v: &[T], k: usize) -> (r: u64)
    requires
        k <= v@.len(),
        v@.len() * T::spec_bits() <= u64::MAX,
    ensures
        r == sum_ones(v@, k as nat),
{
    let mut n: u64 = 0;
    let mut i: usize = 0;
    while i < k
        invariant
            i <= k <= v@.len(),
            v@.len() * T::spec_bits() <= u64::MAX,
            n == sum_ones(v@, i as nat),
        decreases k - i,
    {
        proof {
            lemma_sum_ones_width(v@, (i + 1) as nat);
            T::lemma_width();
            assert((i + 1) * T::spec_bits() <= v@.len() * T::spec_bits()) by (nonlinear_arith)
                requires
                    i + 1 <= v@.len(),
            ;
        }
        n = n + v[i].count1();
        i = i + 1;
    }
    n
}

/// The number of set bits below position `i`.
fn rank_below<T: Word>(v: &[T], i: u64) -> (r: u64)
    requires
        v.spec_wf(),
        i <= v.bit_seq().len(),
    ensures
        r == rank_of(v.bit_seq(), i as nat),
{
    let w = T::bits();
    let q = i / w;
    let o = i % w;
    proof {
        lemma_position(i as int, w as int, v@.len() as int);
    }
    let n = count_words(v, q as usize);
    if (q as usize) < v.len() {
        proof {
            lemma_words_rank(v@, q as nat, o as nat);
            lemma_sum_ones_width(v@, (q + 1) as nat);
            lemma_mul_lt(q as nat, 0, w as nat, v@.len());
        }
        n + v[q as usize].rank1(o)
    } else {
        proof {
            lemma_words_count(v@);
        }
        n
    }
}

impl<T: Word> Bits for [T] {
    open spec fn spec_wf(&self) -> bool {
        self@.len() * T::spec_bits() <= u64::MAX
    }

    open spec fn bit_seq(&self) -> Seq<bool> {
        words_bits(self@)
    }

    fn bits(&self) -> (r: u64) {
        let w = T::bits();
        let n = self.len() as u64;
        proof {
            assert(n == self@.len());
            assert(self.spec_wf());
            assert(self.bit_seq().len() == self@.len() * T::spec_bits());
            assert(w * n == self@.len() * T::spec_bits()) by (nonlinear_arith)
                requires
                    w == T::spec_bits(),
                    n == self@.len(),
            ;
        }
        w * n
    }

    fn bit(&self, i: u64) -> (r: bool) {
        let w = T::bits();
        let q = i / w;
        proof {
            lemma_position(i as int, w as int, self@.len() as int);
        }
        if q < self.len() as u64 {
            self[q as usize].access(i % w)
        } else {
            false
        }
    }

    fn word<W: Word>(&self, i: u64, len: u64) -> (r: W) {
        let w = T::bits();
        let vlen = self.len();
        let ghost v = self@;
        let ghost n = self.bit_seq().len();
        proof {
            W::lemma_width();
            T::lemma_width();
            lemma_position(i as int, w as int, v.len() as int);
            lemma_position((i + len) as int, w as int, v.len() as int);
        }
        let s = i / w;
        let p = i % w;
        let e = (i + len) / w;
        let q = (i + len) % w;
        assert(s <= e) by (nonlinear_arith)
            requires
                i == s * w + p,
                i + len == e * w + q,
                0 <= p < w,
                0 <= q < w,
                len >= 0,
        ;
        assert(s < vlen);
        if s == e {
            let x = extract(self[s as usize].to_u64(), p, q - p);
            proof {
                assert forall|j: nat| #[trigger] bit(x, j) == (j < len && i + j < n && self.bit_seq()[i
                    + j]) by {
                    if j < len {
                        lemma_words_bit(v, s as nat, (p + j) as nat);
                        assert(s * w + p + j == i + j);
                    }
                }
            }
            return W::from_u64(x);
        }
        let first = extract(self[s as usize].to_u64(), p, w - p);
        let mut out = first;
        let mut cur = w - p;
        let mut k = s + 1;
        let stop = if e < vlen as u64 {
            e
        } else {
            vlen as u64
        };
        proof {
            assert forall|j: nat| #[trigger] bit(out, j) == (j < cur && self.bit_seq()[i + j]) by {
                if j < cur {
                    lemma_words_bit(v, s as nat, (p + j) as nat);
                    assert(s * w + p + j == i + j);
                }
            }
            lemma_mul_lt(s as nat, 0, w as nat, (s + 1) as nat);
            assert(i + cur == k * w);
            assert(k * w <= e * w) by (nonlinear_arith)
                requires
                    k <= e,
                    w > 0,
            ;
        }
        while k < stop
            invariant
                v == self@,
                vlen == v.len(),
                n == self.bit_seq().len(),
                w == T::spec_bits(),
                8 <= w <= 64,
                n == v.len() * w,
                s < k <= stop,
                stop <= e,
                stop <= v.len(),
                i + cur == k * w,
                i + len == e * w + q,
                cur <= len,
                len <= 64,
                forall|j: nat| #[trigger] bit(out, j) == (j < cur && self.bit_seq()[i + j]),
            decreases stop - k,
        {
            let x = extract(self[k as usize].to_u64(), 0, w);
            proof {
                lemma_mul_lt(k as nat, 0, w as nat, e as nat);
                assert(cur + w <= len);
                assert forall|j: nat| j >= 64 - cur implies !#[trigger] bit(x, j) by {}
                lemma_shl_bits(x, cur);
                lemma_bits_of_ops(out, x << cur);
            }
            let shifted = x << cur;
            out = out | shifted;
            proof {
                assert forall|j: nat| #[trigger] bit(out, j) == (j < cur + w && self.bit_seq()[i + j]) by {
                    if cur <= j < cur + w {
                        lemma_words_bit(v, k as nat, (j - cur) as nat);
                        assert(k * w + (j - cur) == i + j);
                    }
                }
                lemma_mul_lt(k as nat, 0, w as nat, (k + 1) as nat);
            }
            cur = cur + w;
            k = k + 1;
        }
        if e < vlen as u64 && q > 0 {
            let x = extract(self[e as usize].to_u64(), 0, q);
            proof {
                assert(k == e);
                assert(cur + q == len);
                assert forall|j: nat| j >= 64 - cur implies !#[trigger] bit(x, j) by {}
                lemma_shl_bits(x, cur);
                lemma_bits_of_ops(out, x << cur);
            }
            let shifted = x << cur;
            out = out | shifted;
            proof {
                assert forall|j: nat| #[trigger] bit(out, j) == (j < len && i + j < n && self.bit_seq()[i
                    + j]) by {
                    if cur <= j < len {
                        lemma_words_bit(v, e as nat, (j - cur) as nat);
                        assert(e * w + (j - cur) == i + j);
                    }
                    if j < cur {
                        lemma_mul_lt(e as nat, 0, w as nat, v.len());
                    }
                }
            }
            W::from_u64(out)
        } else {
            proof {
                assert forall|j: nat| #[trigger] bit(out, j) == (j < len && i + j < n && self.bit_seq()[i
                    + j]) by {
                    if e < v.len() {
                        assert(k == e);
                        assert(q == 0);
                        lemma_mul_lt(e as nat, 0, w as nat, v.len());
                    } else {
                        assert(k == v.len());
                    }
                }
            }
            W::from_u64(out)
        }
    }

    fn count1(&self) -> (r: u64) {
        proof {
            lemma_words_count(self@);
        }
        count_words(self, self.len())
    }

    fn rank1(&self, i: u64, j: u64) -> (r: u64) {
        proof {
            lemma_rank_of_bounds(self.bit_seq(), i as nat, j as nat);
        }
        rank_below(self, j) - rank_below(self, i)
    }

    fn select1(&self, n: u64) -> (r: Option<u64>) {
        let w = T::bits();
        let ghost v = self@;
        let mut m = n;
        let mut k: usize = 0;
        proof {
            lemma_words_count(v);
        }
        while k < self.len()
            invariant
                k <= v.len(),
                v == self@,
                w == T::spec_bits(),
                self.spec_wf(),
                n == sum_ones(v, k as nat) + m,
                rank_of(words_bits(v), v.len() * T::spec_bits()) == sum_ones(v, v.len()),
                forall|q: nat| k <= q <= v.len() ==> sum_ones(v, k as nat) <= #[trigger] sum_ones(v, q),
            decreases v.len() - k,
        {
            let c = self[k].count1();
            if m < c {
                let s = self[k].select1(m);
                proof {
                    lemma_words_rank(v, k as nat, s as nat);
                    lemma_words_bit(v, k as nat, s as nat);
                    lemma_mul_lt(k as nat, s as nat, w as nat, v.len());
                    crate::bit_set::words::lemma_sum_ones_bounds(v, v.len());
                    assert(sum_ones(v, (k + 1) as nat) <= sum_ones(v, v.len()));
                }
                return Some(k as u64 * w + s);
            }
            proof {
                assert forall|q: nat| k + 1 <= q <= v.len() implies sum_ones(v, (k + 1) as nat) <= #[trigger] sum_ones(v, q) by {
                    crate::bit_set::words::lemma_sum_ones_bounds(v, q);
                }
            }
            m = m - c;
            k = k + 1;
        }
        None
    }

    fn select0(&self, n: u64) -> (r: Option<u64>) {
        let w = T::bits();
        let ghost v = self@;
        let mut m = n;
        let mut k: usize = 0;
        proof {
            lemma_words_count(v);
            lemma_sum_ones_width(v, v.len());
        }
        while k < self.len()
            invariant
                k <= v.len(),
                v == self@,
                w == T::spec_bits(),
                self.spec_wf(),
                sum_ones(v, k as nat) <= k * w,
                n == (k * w - sum_ones(v, k as nat)) + m,
                rank_of(words_bits(v), v.len() * T::spec_bits()) == sum_ones(v, v.len()),
                sum_ones(v, v.len()) <= v.len() * w,
            decreases v.len() - k,
        {
            let c = self[k].count0();
            proof {
                lemma_sum_ones_width(v, (k + 1) as nat);
            }
            if m < c {
                let s = self[k].select0(m);
                proof {
                    lemma_words_rank(v, k as nat, s as nat);
                    lemma_words_bit(v, k as nat, s as nat);
                    lemma_mul_lt(k as nat, s as nat, w as nat, v.len());
                    lemma_zeros_grow(v, (k + 1) as nat, v.len());
                }
                return Some(k as u64 * w + s);
            }
            proof {
                T::lemma_width();
                lemma_mul_lt(k as nat, 0, w as nat, v.len());
            }
            m = m - c;
            k = k + 1;
        }
        proof {
            lemma_mul_lt(0, 0, w as nat, 1);
        }
        None
    }
}

impl<T: Word> Bits for Vec<T> {
    open spec fn spec_wf(&self) -> bool {
        self@.len() * T::spec_bits() <= u64::MAX
    }

    open spec fn bit_seq(&self) -> Seq<bool> {
        words_bits(self@)
    }

    fn bits(&self) -> (r: u64) {
        Bits::bits(self.as_slice())
    }

    fn bit(&self, i: u64) -> (r: bool) {
        Bits::bit(self.as_slice(), i)
    }

    fn word<W: Word>(&self, i: u64, len: u64) -> (r: W) {
        Bits::word::<W>(self.as_slice(), i, len)
    }

    fn count1(&self) -> (r: u64) {
        Bits::count1(self.as_slice())
    }

    fn rank1(&self, i: u64, j: u64) -> (r: u64) {
        Bits::rank1(self.as_slice(), i, j)
    }

    fn select1(&self, n: u64) -> (r: Option<u64>) {
        Bits::select1(self.as_slice(), n)
    }

    fn select0(&self, n: u64) -> (r: Option<u64>) {
        Bits::select0(self.as_slice(), n)
    }
}

impl<T: Word, const N: usize> Bits for [T; N] {
    open spec fn spec_wf(&self) -> bool {
        self@.len() * T::spec_bits() <= u64::MAX
    }

    open spec fn bit_seq(&self) -> Seq<bool> {
        words_bits(self@)
    }

    fn bits(&self) -> (r: u64) {
        Bits::bits(self.as_slice())
    }

    fn bit(&self, i: u64) -> (r: bool) {
        Bits::bit(self.as_slice(), i)
    }

    fn word<W: Word>(&self, i: u64, len: u64) -> (r: W) {
        Bits::word::<W>(self.as_slice(), i, len)
    }

    fn count1(&self) -> (r: u64) {
        Bits::count1(self.as_slice())
    }

    fn rank1(&self, i: u64, j: u64) -> (r: u64) {
        Bits::rank1(self.as_slice(), i, j)
    }

    fn select1(&self, n: u64) -> (r: Option<u64>) {
        Bits::select1(self.as_slice(), n)
    }

    fn select0(&self, n: u64) -> (r: Option<u64>) {
        Bits::select0(self.as_slice(), n)
    }
}

impl<T: Word> BitsMut for Vec<T> {
    fn set1(&mut self, i: u64) {
        let w = T::bits();
        let q = i / w;
        let o = i % w;
        proof {
            lemma_position(i as int, w as int, old(self)@.len() as int);
        }
        let ghost v0 = self@;
        assert(q < self.len());
        let qi = q as usize;
        assert(qi == q);
        let mut word = self[qi];
        word.insert(o);
        self.set(qi, word);
        proof {
            let ghost n = v0.len() as int;
            assert(self@ == v0.update(qi as int, word));
            assert(self@.len() == v0.len());
            assert(self.bit_seq().len() == words_bits(v0).len());
            assert forall|k: int| 0 <= k < self.bit_seq().len() implies #[trigger] self.bit_seq()[k]
                == words_bits(v0).update(i as int, true)[k] by {
                lemma_position(k, w as int, n);
                let kq = k / (w as int);
                let kr = k % (w as int);
                assert(self.bit_seq()[k] == bit(self@[kq].value(), kr as nat));
                assert(words_bits(v0)[k] == bit(v0[kq].value(), kr as nat));
                if kq == q as int {
                    assert(k == i <==> kr == o);
                }
            }
            assert(self.bit_seq() =~= words_bits(v0).update(i as int, true));
        }
    }

    fn set0(&mut self, i: u64) {
        let w = T::bits();
        let q = i / w;
        let o = i % w;
        proof {
            lemma_position(i as int, w as int, old(self)@.len() as int);
        }
        let ghost v0 = self@;
        assert(q < self.len());
        let qi = q as usize;
        assert(qi == q);
        let mut word = self[qi];
        word.remove(o);
        self.set(qi, word);
        proof {
            let ghost n = v0.len() as int;
            assert(self@ == v0.update(qi as int, word));
            assert(self@.len() == v0.len());
            assert(self.bit_seq().len() == words_bits(v0).len());
            assert forall|k: int| 0 <= k < self.bit_seq().len() implies #[trigger] self.bit_seq()[k]
                == words_bits(v0).update(i as int, false)[k] by {
                lemma_position(k, w as int, n);
                let kq = k / (w as int);
                let kr = k % (w as int);
                assert(self.bit_seq()[k] == bit(self@[kq].value(), kr as nat));
                assert(words_bits(v0)[k] == bit(v0[kq].value(), kr as nat));
                if kq == q as int {
                    assert(k == i <==> kr == o);
                }
            }
            assert(self.bit_seq() =~= words_bits(v0).update(i as int, false));
        }
    }
}

impl<T: Word, const N: usize> BitsMut for [T; N] {
    fn set1(&mut self, i: u64) {
        let w = T::bits();
        let q = i / w;
        let o = i % w;
        proof {
            lemma_position(i as int, w as int, old(self)@.len() as int);
        }
        let ghost v0 = self@;
        assert(q < self.len());
        let qi = q as usize;
        assert(qi == q);
        let mut word = self[qi];
        word.insert(o);
        self[qi] = word;
        proof {
            let ghost n = v0.len() as int;
            assert(self@ == v0.update(qi as int, word));
            assert(self@.len() == v0.len());
            assert(self.bit_seq().len() == words_bits(v0).len());
            assert forall|k: int| 0 <= k < self.bit_seq().len() implies #[trigger] self.bit_seq()[k]
                == words_bits(v0).update(i as int, true)[k] by {
                lemma_position(k, w as int, n);
                let kq = k / (w as int);
                let kr = k % (w as int);
                assert(self.bit_seq()[k] == bit(self@[kq].value(), kr as nat));
                assert(words_bits(v0)[k] == bit(v0[kq].value(), kr as nat));
                if kq == q as int {
                    assert(k == i <==> kr == o);
                }
            }
            assert(self.bit_seq() =~= words_bits(v0).update(i as int, true));
        }
    }

    fn set0(&mut self, i: u64) {
        let w = T::bits();
        let q = i / w;
        let o = i % w;
        proof {
            lemma_position(i as int, w as int, old(self)@.len() as int);
        }
        let ghost v0 = self@;
        assert(q < self.len());
        let qi = q as usize;
        assert(qi == q);
        let mut word = self[qi];
        word.remove(o);
        self[qi] = word;
        proof {
            let ghost n = v0.len() as int;
            assert(self@ == v0.update(qi as int, word));
            assert(self@.len() == v0.len());
            assert(self.bit_seq().len() == words_bits(v0).len());
            assert forall|k: int| 0 <= k < self.bit_seq().len() implies #[trigger] self.bit_seq()[k]
                == words_bits(v0).update(i as int, false)[k] by {
                lemma_position(k, w as int, n);
                let kq = k / (w as int);
                let kr = k % (w as int);
                assert(self.bit_seq()[k] == bit(self@[kq].value(), kr as nat));
                assert(words_bits(v0)[k] == bit(v0[kq].value(), kr as nat));
                if kq == q as int {
                    assert(k == i <==> kr == o);
                }
            }
            assert(self.bit_seq() =~= words_bits(v0).update(i as int, false));
        }
    }
}

/// The unset bits of the first `k` words never outnumber those of more words.
proof fn lemma_zeros_grow<T: Word>(v: Seq<T>, k: nat, n: nat)
    requires
        k <= n <= v.len(),
    ensures
        k * T::spec_bits() - sum_ones(v, k) <= n * T::spec_bits() - sum_ones(v, n),
        sum_ones(v, k) <= k * T::spec_bits(),
    decreases n,
{
    T::lemma_width();
    lemma_sum_ones_width(v, k);
    if n > k {
        lemma_zeros_grow(v, k, (n - 1) as nat);
        lemma_ones_bounds(v[n - 1].value(), 0, T::spec_bits());
        lemma_mul_lt((n - 1) as nat, 0, T::spec_bits(), n);
    }
}

/// The blockwise set operations on word vectors.
#[derive(Clone, Copy, PartialEq, Eq)]
pub enum SetOp {
    /// Intersection.
    And,
    /// Union.
    Or,
    /// Difference.
    Not,
    /// Symmetric difference.
    Xor,
}

/// Word `i` of `v`, or an empty word past its end.
pub open spec fn word_at<T: Word>(v: Seq<T>, i: int) -> u64 {
    if 0 <= i < v.len() {
        v[i].value()
    } else {
        0
    }
}

/// The word that `op` makes of words `x` and `y`.
pub open spec fn combine(op: SetOp, x: u64, y: u64) -> u64 {
    match op {
        SetOp::And => x & y,
        SetOp::Or => x | y,
        SetOp::Not => x & !y,
        SetOp::Xor => x ^ y,
    }
}

/// Whether the block at an index shows up in the result of `op`: the
/// symmetric difference lists every block present on either side, the other
/// operations every block whose result is not empty.
pub open spec fn emits(op: SetOp, x: u64, y: u64) -> bool {
    match op {
        SetOp::Xor => x != 0 || y != 0,
        _ => combine(op, x, y) != 0,
    }
}

/// The indexed blocks that `op` yields from the first `k` indices.
pub open spec fn block_op<T: Word>(a: Seq<T>, b: Seq<T>, op: SetOp, k: nat) -> Seq<(int, u64)>
    decreases k,
{
    if k == 0 {
        Seq::empty()
    } else {
        let prev = block_op(a, b, op, (k - 1) as nat);
        let i = k - 1;
        let x = word_at(a, i);
        let y = word_at(b, i);
        if emits(op, x, y) {
            prev.push((i, combine(op, x, y)))
        } else {
            prev
        }
    }
}

/// Indexed blocks seen as indices and widened word values.
pub open spec fn blocks_view<T: Word>(r: Seq<(usize, T)>) -> Seq<(int, u64)> {
    r.map_values(|p: (usize, T)| (p.0 as int, p.1.value()))
}

/// The larger of two lengths.
pub open spec fn max_len(a: nat, b: nat) -> nat {
    if a >= b {
        a
    } else {
        b
    }
}

/// Combines `a` and `b` block by block with `op`.
fn zip_blocks<T: Word>(a: &Vec<T>, b: &Vec<T>, op: SetOp) -> (r: Vec<(usize, T)>)
    ensures
        blocks_view(r@) == block_op(a@, b@, op, max_len(a@.len(), b@.len())),
{
    let n = if a.len() >= b.len() {
        a.len()
    } else {
        b.len()
    };
    let mut out: Vec<(usize, T)> = Vec::new();
    let mut k: usize = 0;
    while k < n
        invariant
            k <= n,
            n == max_len(a@.len(), b@.len()),
            blocks_view(out@) == block_op(a@, b@, op, k as nat),
        decreases n - k,
    {
        let x = if k < a.len() {
            a[k].to_u64()
        } else {
            0
        };
        let y = if k < b.len() {
            b[k].to_u64()
        } else {
            0
        };
        proof {
            lemma_bits_of_ops(x, y);
            lemma_bits_of_ops(x, !y);
        }
        let z = match op {
            SetOp::And => x & y,
            SetOp::Or => x | y,
            SetOp::Not => x & !y,
            SetOp::Xor => x ^ y,
        };
        let keep = match op {
            SetOp::Xor => x != 0 || y != 0,
            _ => z != 0,
        };
        let ghost before = out@;
        if keep {
            proof {
                assert(fits(z, T::spec_bits()));
            }
            out.push((k, T::from_u64(z)));
            proof {
                assert(blocks_view(out@) =~= blocks_view(before).push((k as int, z)));
            }
        }
        k = k + 1;
    }
    out
}

/// The intersection of two bit vectors, as the indexed words that are not
/// empty.
pub fn and<T: Word>(a: &Vec<T>, b: &Vec<T>) -> (r: Vec<(usize, T)>)
    ensures
        blocks_view(r@) == block_op(a@, b@, SetOp::And, max_len(a@.len(), b@.len())),
{
    zip_blocks(a, b, SetOp::And)
}

/// The union of two bit vectors, as the indexed words that are not empty.
pub fn or<T: Word>(a: &Vec<T>, b: &Vec<T>) -> (r: Vec<(usize, T)>)
    ensures
        blocks_view(r@) == block_op(a@, b@, SetOp::Or, max_len(a@.len(), b@.len())),
{
    zip_blocks(a, b, SetOp::Or)
}

/// The difference of two bit vectors (the bits of `a` not in `b`), as the
/// indexed words that are not empty.
pub fn not<T: Word>(a: &Vec<T>, b: &Vec<T>) -> (r: Vec<(usize, T)>)
    ensures
        blocks_view(r@) == block_op(a@, b@, SetOp::Not, max_len(a@.len(), b@.len())),
{
    zip_blocks(a, b, SetOp::Not)
}

/// The symmetric difference of two bit vectors: one indexed word for each
/// index where either side has a non-empty word.
pub fn xor<T: Word>(a: &Vec<T>, b: &Vec<T>) -> (r: Vec<(usize, T)>)
    ensures
        blocks_view(r@) == block_op(a@, b@, SetOp::Xor, max_len(a@.len(), b@.len())),
{
    zip_blocks(a, b, SetOp::Xor)
}


/// Bit `p` of the indexed words `r`, each word standing at its index times
/// `w`.
pub open spec fn blocks_bit(r: Seq<(int, u64)>, w: nat, p: nat) -> bool
    decreases r.len(),
{
    r.len() > 0 && ((r.last().0 == p / w && bit(r.last().1, p % w)) || blocks_bit(
        r.drop_last(),
        w,
        p,
    ))
}

/// Bit `p` of the words `v`; unset past their end.
pub open spec fn bit_of<T: Word>(v: Seq<T>, p: nat) -> bool {
    p < v.len() * T::spec_bits() && words_bits(v)[p as int]
}

/// The bit that `op` makes of bits `x` and `y`.
pub open spec fn set_op(op: SetOp, x: bool, y: bool) -> bool {
    match op {
        SetOp::And => x && y,
        SetOp::Or => x || y,
        SetOp::Not => x && !y,
        SetOp::Xor => x != y,
    }
}

proof fn lemma_word_at_bits<T: Word>(v: Seq<T>, q: nat, r: nat)
    requires
        r < T::spec_bits(),
    ensures
        bit(word_at(v, q as int), r) == bit_of(v, q * T::spec_bits() + r),
{
    T::lemma_width();
    lemma_bits_of_ops(0, 0);
    if q < v.len() {
        lemma_words_bit(v, q, r);
    } else {
        assert(q * T::spec_bits() + r >= v.len() * T::spec_bits()) by (nonlinear_arith)
            requires
                q >= v.len(),
        ;
    }
}

/// The blockwise operations act on each bit: bit `p` of the indexed words
/// that `op` yields from the first `n` indices is `op` of bit `p` of `a` and
/// of `b`, for every bit of those indices.
pub proof fn lemma_block_op_bits<T: Word>(a: Seq<T>, b: Seq<T>, op: SetOp, n: nat, p: nat)
    requires
        p < n * T::spec_bits(),
    ensures
        blocks_bit(block_op(a, b, op, n), T::spec_bits(), p) == set_op(op, bit_of(a, p), bit_of(b, p)),
    decreases n,
{
    let w = T::spec_bits();
    T::lemma_width();
    lemma_position(p as int, w as int, n as int);
    let q = p / w;
    let r = p % w;
    let i = (n - 1) as nat;
    let x = word_at(a, i as int);
    let y = word_at(b, i as int);
    let prev = block_op(a, b, op, i);
    lemma_bits_of_ops(x, y);
    lemma_bits_of_ops(x, !y);
    lemma_bits_of_ops(y, x);
    assert(bit(combine(op, x, y), r) == set_op(op, bit(x, r), bit(y, r)));
    if q == i {
        lemma_word_at_bits(a, i, r);
        lemma_word_at_bits(b, i, r);
        assert(p == i * w + r);
        assert(!blocks_bit(prev, w, p)) by {
            lemma_block_op_below(a, b, op, i, p);
        }
        if !emits(op, x, y) {
            assert(!bit(combine(op, x, y), r)) by {
                lemma_bits_of_ops(0, 0);
            }
        } else {
            let out = block_op(a, b, op, n);
            assert(out.drop_last() == prev);
        }
    } else {
        lemma_position(p as int, w as int, i as int);
        lemma_block_op_bits(a, b, op, i, p);
        if emits(op, x, y) {
            let out = block_op(a, b, op, n);
            assert(out.drop_last() == prev);
        }
    }
}

/// The indexed words yielded from the first `i` indices hold no bit of
/// index `i` or above.
proof fn lemma_block_op_below<T: Word>(a: Seq<T>, b: Seq<T>, op: SetOp, i: nat, p: nat)
    requires
        p >= i * T::spec_bits(),
    ensures
        !blocks_bit(block_op(a, b, op, i), T::spec_bits(), p),
    decreases i,
{
    let w = T::spec_bits();
    T::lemma_width();
    if i > 0 {
        lemma_block_op_below(a, b, op, (i - 1) as nat, p);
        lemma_position(p as int, w as int, i as int);
        let out = block_op(a, b, op, i);
        let prev = block_op(a, b, op, (i - 1) as nat);
        if out.len() > 0 && out != prev {
            assert(out.drop_last() == prev);
            assert(out.last().0 == i - 1);
        }
    }
}

impl<T: Word, const N: usize> Block for [T; N] {
    open spec fn spec_block_bits() -> nat {
        (N * T::spec_bits()) as nat
    }

    proof fn lemma_block_bits(&self) {
        assert(self@.len() == N);
    }

    fn block_bits() -> (r: u64) {
        let w = T::bits();
        let n = N as u64;
        proof {
            assert(w * n == N * T::spec_bits()) by (nonlinear_arith)
                requires
                    w == T::spec_bits(),
                    n == N,
            ;
        }
        w * n
    }

    fn empty() -> (r: Self) {
        let r = [T::zero(); N];
        proof {
            lemma_bits_of_ops(0, 0);
            assert(r@.len() == N);
            assert forall|i: int| 0 <= i < r.bit_seq().len() implies !#[trigger] r.bit_seq()[i] by {
                T::lemma_width();
                lemma_position(i, T::spec_bits() as int, N as int);
                assert(r@[i / (T::spec_bits() as int)].value() == 0);
            }
        }
        r
    }
}

} // verus!
