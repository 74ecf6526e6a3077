//! Machine words seen as fixed-size bit vectors.

use vstd::prelude::*;

verus! {

/// The `i`-th bit (counting from the least significant one) of `x`.
pub open spec fn bit(x: u64, i: nat) -> bool {
    i < 64 && (x >> (i as u64)) & 1u64 == 1u64
}

/// The number of set bits of `x` below position `n`.
pub open spec fn ones(x: u64, n: nat) -> nat
    decreases n,
{
    if n == 0 {
        0
    } else {
        ones(x, (n - 1) as nat) + if bit(x, (n - 1) as nat) { 1nat } else { 0nat }
    }
}

/// `x` has no set bit at or above position `w`.
pub open spec fn fits(x: u64, w: nat) -> bool {
    forall|j: nat| w <= j ==> !#[trigger] bit(x, j)
}

/// A mask with the low `n` bits set.
pub open spec fn low_mask(n: u64) -> u64 {
    if n >= 64 { !0u64 } else { ((1u64 << n) - 1) as u64 }
}

/// Bit `j` of the results of the bitwise operators, in the bit-vector theory.
pub proof fn lemma_bit_ops(x: u64, y: u64, j: u64)
    by (bit_vector)
    requires
        j < 64,
    ensures
        (((x & y) >> j) & 1u64 == 1u64) == (((x >> j) & 1u64 == 1u64) && ((y >> j) & 1u64 == 1u64)),
        (((x | y) >> j) & 1u64 == 1u64) == (((x >> j) & 1u64 == 1u64) || ((y >> j) & 1u64 == 1u64)),
        (((x ^ y) >> j) & 1u64 == 1u64) == (((x >> j) & 1u64 == 1u64) != ((y >> j) & 1u64 == 1u64)),
        (((!x) >> j) & 1u64 == 1u64) == !((x >> j) & 1u64 == 1u64),
        (0u64 >> j) & 1u64 != 1u64,
        ((!0u64) >> j) & 1u64 == 1u64,
{
}

/// The bits of a single-bit word and of a low mask, in the bit-vector theory.
pub proof fn lemma_single_bit(x: u64, i: u64, j: u64)
    by (bit_vector)
    requires
        i < 64,
        j < 64,
    ensures
        ((1u64 << i) >> j) & 1u64 == if i == j { 1u64 } else { 0u64 },
        (x & (1u64 << i) != 0u64) == ((x >> i) & 1u64 == 1u64),
        (((1u64 << i) - 1) as u64 >> j) & 1u64 == if j < i { 1u64 } else { 0u64 },
        1u64 << i >= 1u64,
{
}

/// Bitwise operators act on each bit position separately.
pub proof fn lemma_bits_of_ops(x: u64, y: u64)
    ensures
        forall|j: nat| #[trigger] bit(x & y, j) == (bit(x, j) && bit(y, j)),
        forall|j: nat| #[trigger] bit(x | y, j) == (bit(x, j) || bit(y, j)),
        forall|j: nat| #[trigger] bit(x ^ y, j) == (bit(x, j) != bit(y, j)),
        forall|j: nat| #[trigger] bit(!x, j) == (j < 64 && !bit(x, j)),
        forall|j: nat| !#[trigger] bit(0u64, j),
        forall|j: nat| #[trigger] bit(!0u64, j) == (j < 64),
{
    assert forall|j: nat| #[trigger] bit(x & y, j) == (bit(x, j) && bit(y, j)) by {
        if j < 64 {
            lemma_bit_ops(x, y, j as u64);
        }
    }
    assert forall|j: nat| #[trigger] bit(x | y, j) == (bit(x, j) || bit(y, j)) by {
        if j < 64 {
            lemma_bit_ops(x, y, j as u64);
        }
    }
    assert forall|j: nat| #[trigger] bit(x ^ y, j) == (bit(x, j) != bit(y, j)) by {
        if j < 64 {
            lemma_bit_ops(x, y, j as u64);
        }
    }
    assert forall|j: nat| #[trigger] bit(!x, j) == (j < 64 && !bit(x, j)) by {
        if j < 64 {
            lemma_bit_ops(x, y, j as u64);
        }
    }
    assert forall|j: nat| !#[trigger] bit(0u64, j) by {
        if j < 64 {
            lemma_bit_ops(x, y, j as u64);
        }
    }
    assert forall|j: nat| #[trigger] bit(!0u64, j) == (j < 64) by {
        if j < 64 {
            lemma_bit_ops(x, y, j as u64);
        }
    }
}

/// The bits of a single-bit word and of a low mask.
pub proof fn lemma_bits_of_masks(i: u64)
    requires
        i < 64,
    ensures
        forall|j: nat| #[trigger] bit(1u64 << i, j) == (j == i),
        forall|j: nat| #[trigger] bit(low_mask(i), j) == (j < i),
        forall|x: u64| (#[trigger] (x & (1u64 << i)) != 0u64) == bit(x, i as nat),
        1u64 << i >= 1u64,
{
    lemma_single_bit(0, i, 0);
    assert forall|j: nat| #[trigger] bit(1u64 << i, j) == (j == i) by {
        if j < 64 {
            lemma_single_bit(0, i, j as u64);
        }
    }
    assert forall|j: nat| #[trigger] bit(low_mask(i), j) == (j < i) by {
        if j < 64 {
            lemma_single_bit(0, i, j as u64);
        }
    }
    assert forall|x: u64| (#[trigger] (x & (1u64 << i)) != 0u64) == bit(x, i as nat) by {
        lemma_single_bit(x, i, 0);
    }
}

/// Two words that agree on the bits below `n` have as many ones there.
pub proof fn lemma_ones_ext(x: u64, y: u64, n: nat)
    requires
        forall|j: nat| j < n ==> #[trigger] bit(x, j) == bit(y, j),
    ensures
        ones(x, n) == ones(y, n),
    decreases n,
{
    if n > 0 {
        lemma_ones_ext(x, y, (n - 1) as nat);
        assert(bit(x, (n - 1) as nat) == bit(y, (n - 1) as nat));
    }
}

/// Counting stops growing past the last set bit.
pub proof fn lemma_ones_zero_above(x: u64, i: nat, n: nat)
    requires
        i <= n,
        forall|j: nat| i <= j < n ==> !#[trigger] bit(x, j),
    ensures
        ones(x, n) == ones(x, i),
    decreases n,
{
    if n > i {
        lemma_ones_zero_above(x, i, (n - 1) as nat);
        assert(!bit(x, (n - 1) as nat));
    }
}

/// The count of ones is monotone and bounded by the number of positions.
pub proof fn lemma_ones_bounds(x: u64, i: nat, n: nat)
    requires
        i <= n,
    ensures
        ones(x, i) <= ones(x, n),
        ones(x, n) - ones(x, i) <= n - i,
    decreases n,
{
    if n > i {
        lemma_ones_bounds(x, i, (n - 1) as nat);
    }
}

/// Setting one bit adds one to the count iff the bit was clear.
pub proof fn lemma_ones_set(x: u64, i: u64, n: nat)
    requires
        i < 64,
    ensures
        ones(x | (1u64 << i), n) == ones(x, n) + if i < n && !bit(x, i as nat) { 1nat } else { 0nat },
    decreases n,
{
    lemma_bits_of_ops(x, 1u64 << i);
    lemma_bits_of_masks(i);
    if n > 0 {
        lemma_ones_set(x, i, (n - 1) as nat);
    }
}

/// Clearing one bit removes one from the count iff the bit was set.
pub proof fn lemma_ones_clear(x: u64, i: u64, n: nat)
    requires
        i < 64,
    ensures
        ones(x & !(1u64 << i), n) + if i < n && bit(x, i as nat) { 1nat } else { 0nat } == ones(x, n),
    decreases n,
{
    lemma_bits_of_ops(x, !(1u64 << i));
    lemma_bits_of_ops(1u64 << i, 0);
    lemma_bits_of_masks(i);
    if n > 0 {
        lemma_ones_clear(x, i, (n - 1) as nat);
    }
}

/// One step of a right shift by one, in the bit-vector theory.
proof fn lemma_shift_step(x: u64, j: u64)
    by (bit_vector)
    requires
        j < 63,
    ensures
        ((x >> 1u64) >> j) & 1u64 == (x >> ((j + 1) as u64)) & 1u64,
        ((x >> 1u64) >> 63u64) & 1u64 == 0u64,
        x != 0u64 ==> x >> 1u64 < x,
        x >> 1u64 <= x,
        x == ((x >> 1u64) << 1u64) | (x & 1u64),
        (x & 1u64 == 1u64) == ((x >> 0u64) & 1u64 == 1u64),
        x & 1u64 == 0u64 || x & 1u64 == 1u64,
{
}

/// Two words with the same bits are the same word.
pub proof fn lemma_bits_ext(x: u64, y: u64)
    requires
        forall|j: nat| j < 64 ==> #[trigger] bit(x, j) == bit(y, j),
    ensures
        x == y,
    decreases x + y,
{
    lemma_shift_step(x, 0);
    lemma_shift_step(y, 0);
    assert(bit(x, 0) == bit(y, 0));
    if x != 0 || y != 0 {
        assert forall|j: nat| j < 64 implies #[trigger] bit(x >> 1u64, j) == bit(y >> 1u64, j) by {
            if j < 63 {
                lemma_shift_step(x, j as u64);
                lemma_shift_step(y, j as u64);
                assert(bit(x, j + 1) == bit(y, j + 1));
            }
        }
        lemma_bits_ext(x >> 1u64, y >> 1u64);
    }
}

/// The bits of a shifted word, in the bit-vector theory.
proof fn lemma_shift_bit(x: u64, c: u64, j: u64)
    by (bit_vector)
    requires
        c < 64,
        j < 64,
    ensures
        ((x << c) >> j) & 1u64 == if j >= c { (x >> ((j - c) as u64)) & 1u64 } else { 0u64 },
        ((x >> c) >> j) & 1u64 == if c + j < 64 { (x >> ((c + j) as u64)) & 1u64 } else { 0u64 },
{
}

/// Bits of a left shift: the bits move up by `c`; none is lost when the
/// word fits in `64 - c` bits.
pub proof fn lemma_shl_bits(x: u64, c: u64)
    requires
        c < 64,
        fits(x, (64 - c) as nat),
    ensures
        forall|j: nat| #[trigger] bit(x << c, j) == (j >= c && bit(x, (j - c) as nat)),
{
    assert forall|j: nat| #[trigger] bit(x << c, j) == (j >= c && bit(x, (j - c) as nat)) by {
        if j < 64 {
            lemma_shift_bit(x, c, j as u64);
        } else {
            assert(!bit(x, (j - c) as nat));
        }
    }
}

/// Bits of a right shift: the bits move down by `c`.
pub proof fn lemma_shr_bits(x: u64, c: u64)
    requires
        c < 64,
    ensures
        forall|j: nat| #[trigger] bit(x >> c, j) == bit(x, (c + j) as nat),
{
    assert forall|j: nat| #[trigger] bit(x >> c, j) == bit(x, (c + j) as nat) by {
        if j < 64 {
            lemma_shift_bit(x, c, j as u64);
        }
    }
}

/// The `l` bits of `x` from position `p` on, moved down to the lowest bits.
pub fn extract(x: u64, p: u64, l: u64) -> (r: u64)
    requires
        p < 64,
        l <= 64,
    ensures
        forall|j: nat| #[trigger] bit(r, j) == (j < l && bit(x, (p + j) as nat)),
{
    let m = mask_below(l);
    proof {
        lemma_shr_bits(x, p);
        lemma_bits_of_ops(x >> p, m);
    }
    (x >> p) & m
}


/// Reads the `i`-th bit of `x`.
pub fn test_bit(x: u64, i: u64) -> (r: bool)
    requires
        i < 64,
    ensures
        r == bit(x, i as nat),
{
    (x >> i) & 1 == 1
}

/// The number of set bits of `x`.
pub fn count_ones(x: u64) -> (r: u32)
    ensures
        r == ones(x, 64),
        r <= 64,
{
    let mut n: u32 = 0;
    let mut i: u64 = 0;
    while i < 64
        invariant
            i <= 64,
            n == ones(x, i as nat),
            n <= i,
        decreases 64 - i,
    {
        if test_bit(x, i) {
            n = n + 1;
        }
        i = i + 1;
    }
    n
}

/// A mask with the low `n` bits set, for `n <= 64`.
pub fn mask_below(n: u64) -> (r: u64)
    requires
        n <= 64,
    ensures
        r == low_mask(n),
        forall|j: nat| #[trigger] bit(r, j) == (j < n),
{
    if n >= 64 {
        proof {
            lemma_bits_of_ops(0, 0);
        }
        !0u64
    } else {
        proof {
            lemma_bits_of_masks(n);
        }
        (1u64 << n) - 1
    }
}

/// A word below `2^w` has no bit at or above `w`, in the bit-vector theory.
proof fn lemma_fits_shift(x: u64, w: u64, j: u64)
    by (bit_vector)
    requires
        w < 64,
        w <= j < 64,
        x < (1u64 << w),
    ensures
        (x >> j) & 1u64 != 1u64,
{
}

/// The low `b` bits of a word are below `2^b`, in the bit-vector theory.
proof fn lemma_low_bits_lt(x: u64, b: u64)
    by (bit_vector)
    requires
        b < 64,
    ensures
        x & (((1u64 << b) - 1) as u64) < (1u64 << b),
        (1u64 << 8u64) == 256u64,
        (1u64 << 16u64) == 65536u64,
        (1u64 << 32u64) == 0x1_0000_0000u64,
{
}

/// For widths below 64, having no bit at or above `w` means being below `2^w`.
pub proof fn lemma_fits_iff_lt(x: u64, w: u64)
    requires
        w < 64,
    ensures
        fits(x, w as nat) <==> x < (1u64 << w),
        (1u64 << 8u64) == 256u64,
        (1u64 << 16u64) == 65536u64,
        (1u64 << 32u64) == 0x1_0000_0000u64,
{
    lemma_low_bits_lt(x, w);
    if x < (1u64 << w) {
        assert forall|j: nat| w <= j implies !#[trigger] bit(x, j) by {
            if j < 64 {
                lemma_fits_shift(x, w, j as u64);
            }
        }
    }
    if fits(x, w as nat) {
        lemma_bits_of_masks(w);
        lemma_bits_of_ops(x, low_mask(w));
        lemma_bits_ext(x, x & low_mask(w));
    }
}

/// Smallest `k` in `[0, end)` at which `f(k)` holds, where `f` is monotone on
/// that range; `end` when there is none.
pub fn search<F: Fn(u64) -> bool>(end: u64, f: F, Ghost(p): Ghost<spec_fn(u64) -> bool>) -> (r: u64)
    requires
        forall|k: u64| k < end ==> #[trigger] f.requires((k,)),
        forall|k: u64, b: bool| k < end && #[trigger] f.ensures((k,), b) ==> b == p(k),
        forall|a: u64, b: u64| a <= b < end && #[trigger] p(a) ==> #[trigger] p(b),
    ensures
        r <= end,
        r < end ==> p(r),
        forall|k: u64| k < r ==> !#[trigger] p(k),
{
    let mut i: u64 = 0;
    let mut j: u64 = end;
    while i < j
        invariant
            i <= j <= end,
            j < end ==> p(j),
            forall|k: u64| k < i ==> !#[trigger] p(k),
            forall|k: u64| k < end ==> #[trigger] f.requires((k,)),
            forall|k: u64, b: bool| k < end && #[trigger] f.ensures((k,), b) ==> b == p(k),
            forall|a: u64, b: u64| a <= b < end && #[trigger] p(a) ==> #[trigger] p(b),
        decreases j - i,
    {
        let h = i + (j - i) / 2;
        if f(h) {
            j = h;  // f(j) == true
        } else {
            i = h + 1;  // f(i-1) == false
        }
    }
    i  // f(i-1) == false && f(i) (= f(j)) == true
}

/// An unsigned integer seen as a bit vector of fixed size.
pub trait Word: Copy + Sized {
    /// The number of bits.
    spec fn spec_bits() -> nat;

    /// The value, widened to 64 bits.
    spec fn value(self) -> u64;

    /// Words are 8, 16, 32 or 64 bits wide.
    proof fn lemma_width()
        ensures
            Self::spec_bits() == 8 || Self::spec_bits() == 16 || Self::spec_bits() == 32
                || Self::spec_bits() == 64,
    ;

    /// The number of bits.
    fn bits() -> (r: u64)
        ensures
            r == Self::spec_bits(),
            r == 8 || r == 16 || r == 32 || r == 64,
    ;

    /// Widens to 64 bits.
    fn to_u64(self) -> (r: u64)
        ensures
            r == self.value(),
            fits(r, Self::spec_bits()),
    ;

    /// Narrows from 64 bits.
    fn from_u64(v: u64) -> (r: Self)
        requires
            fits(v, Self::spec_bits()),
        ensures
            r.value() == v,
    ;

    /// The word with no bit set.
    fn zero() -> (r: Self)
        ensures
            r.value() == 0,
    {
        proof {
            lemma_bits_of_ops(0, 0);
        }
        Self::from_u64(0)
    }

    /// The word with every bit set.
    fn ones_word() -> (r: Self)
        ensures
            forall|j: nat| #[trigger] bit(r.value(), j) == (j < Self::spec_bits()),
    {
        let w = Self::bits();
        let m = mask_below(w);
        Self::from_u64(m)
    }

    /// The word with only bit `i` set.
    fn bit(i: u64) -> (r: Self)
        requires
            i < Self::spec_bits(),
        ensures
            r.value() == 1u64 << i,
            forall|j: nat| #[trigger] bit(r.value(), j) == (j == i),
    {
        let w = Self::bits();
        proof {
            lemma_bits_of_masks(i);
        }
        Self::from_u64(1u64 << i)
    }

    /// The word with the bits below `i` set.
    fn mask(i: u64) -> (r: Self)
        requires
            i < Self::spec_bits(),
        ensures
            r.value() == low_mask(i),
            forall|j: nat| #[trigger] bit(r.value(), j) == (j < i),
    {
        let w = Self::bits();
        Self::from_u64(mask_below(i))
    }

    /// Reads bit `i`.
    fn access(self, i: u64) -> (r: bool)
        requires
            i < Self::spec_bits(),
        ensures
            r == bit(self.value(), i as nat),
    {
        let w = Self::bits();
        test_bit(self.to_u64(), i)
    }

    /// The number of set bits.
    fn count1(self) -> (r: u64)
        ensures
            r == ones(self.value(), Self::spec_bits()),
            r <= Self::spec_bits(),
    {
        let v = self.to_u64();
        let w = Self::bits();
        proof {
            lemma_ones_zero_above(v, w as nat, 64);
            lemma_ones_bounds(v, 0, w as nat);
        }
        count_ones(v) as u64
    }

    /// The number of unset bits.
    fn count0(self) -> (r: u64)
        ensures
            r == Self::spec_bits() - ones(self.value(), Self::spec_bits()),
    {
        Self::bits() - self.count1()
    }

    /// The number of set bits below `i`.
    fn rank1(self, i: u64) -> (r: u64)
        requires
            i <= Self::spec_bits(),
        ensures
            r == ones(self.value(), i as nat),
            r <= i,
    {
        let w = Self::bits();
        proof {
            lemma_ones_bounds(self.value(), 0, i as nat);
        }
        if i == w {
            self.count1()
        } else {
            let v = self.to_u64();
            let m = mask_below(i);
            proof {
                lemma_bits_of_ops(v, m);
                lemma_ones_zero_above(v & m, i as nat, 64);
                lemma_ones_ext(v & m, v, i as nat);
            }
            count_ones(v & m) as u64
        }
    }

    /// The number of unset bits below `i`.
    fn rank0(self, i: u64) -> (r: u64)
        requires
            i <= Self::spec_bits(),
        ensures
            r == i - ones(self.value(), i as nat),
    {
        i - self.rank1(i)
    }

    /// The position of the set bit with `n` set bits before it.
    fn select1(self, n: u64) -> (r: u64)
        requires
            n < ones(self.value(), Self::spec_bits()),
        ensures
            r < Self::spec_bits(),
            bit(self.value(), r as nat),
            ones(self.value(), r as nat) == n,
    {
        let w = Self::bits();
        let ghost v = self.value();
        let ghost p = |k: u64| k <= w && ones(v, k as nat) > n;
        proof {
            assert forall|a: u64, b: u64| a <= b <= w && #[trigger] p(a) implies #[trigger] p(b) by {
                lemma_ones_bounds(v, a as nat, b as nat);
            }
        }
        let pred = (|k: u64| -> (b: bool)
            requires
                k <= w,
                w == Self::spec_bits(),
            ensures
                b == p(k),
            { self.rank1(k) > n });
        let k = search(w, pred, Ghost(p));
        proof {
            assert(p(w));
            assert(k > 0) by {
                if k == 0 {
                    assert(ones(v, 0) == 0);
                }
            }
            assert(!p((k - 1) as u64));
            assert(ones(v, k as nat) == ones(v, (k - 1) as nat) + if bit(v, (k - 1) as nat) { 1nat } else { 0nat });
        }
        k - 1
    }

    /// The position of the unset bit with `n` unset bits before it.
    fn select0(self, n: u64) -> (r: u64)
        requires
            n < Self::spec_bits() - ones(self.value(), Self::spec_bits()),
        ensures
            r < Self::spec_bits(),
            !bit(self.value(), r as nat),
            r - ones(self.value(), r as nat) == n,
    {
        let w = Self::bits();
        let ghost v = self.value();
        let ghost p = |k: u64| k <= w && k - ones(v, k as nat) > n;
        proof {
            assert forall|a: u64, b: u64| a <= b <= w && #[trigger] p(a) implies #[trigger] p(b) by {
                lemma_ones_bounds(v, a as nat, b as nat);
            }
            lemma_ones_bounds(v, 0, w as nat);
        }
        let pred = (|k: u64| -> (b: bool)
            requires
                k <= w,
                w == Self::spec_bits(),
            ensures
                b == p(k),
            { self.rank0(k) > n });
        let k = search(w, pred, Ghost(p));
        proof {
            assert(p(w));
            assert(k > 0) by {
                if k == 0 {
                    assert(ones(v, 0) == 0);
                }
            }
            assert(!p((k - 1) as u64));
            lemma_ones_bounds(v, 0, (k - 1) as nat);
            assert(ones(v, k as nat) == ones(v, (k - 1) as nat) + if bit(v, (k - 1) as nat) { 1nat } else { 0nat });
        }
        k - 1
    }

    /// Sets bit `i` and returns its previous value.
    fn insert(&mut self, i: u64) -> (prev: bool)
        requires
            i < Self::spec_bits(),
        ensures
            prev == bit(old(self).value(), i as nat),
            final(self).value() == old(self).value() | (1u64 << i),
            forall|j: nat| #[trigger] bit(final(self).value(), j) == (j == i || bit(old(self).value(), j)),
    {
        let v = self.to_u64();
        let w = Self::bits();
        proof {
            lemma_bits_of_masks(i);
            lemma_bits_of_ops(v, 1u64 << i);
        }
        let prev = test_bit(v, i);
        *self = Self::from_u64(v | (1u64 << i));
        prev
    }

    /// Clears bit `i` and returns its previous value.
    fn remove(&mut self, i: u64) -> (prev: bool)
        requires
            i < Self::spec_bits(),
        ensures
            prev == bit(old(self).value(), i as nat),
            final(self).value() == old(self).value() & !(1u64 << i),
            forall|j: nat| #[trigger] bit(final(self).value(), j) == (j != i && bit(old(self).value(), j)),
    {
        let v = self.to_u64();
        let w = Self::bits();
        proof {
            lemma_bits_of_masks(i);
            lemma_bits_of_ops(v, !(1u64 << i));
            lemma_bits_of_ops(1u64 << i, 0);
        }
        let prev = test_bit(v, i);
        *self = Self::from_u64(v & !(1u64 << i));
        prev
    }
}

impl Word for u8 {
    open spec fn spec_bits() -> nat {
        8
    }

    proof fn lemma_width() {
    }

    open spec fn value(self) -> u64 {
        self as u64
    }

    fn bits() -> (r: u64) {
        8
    }

    fn to_u64(self) -> (r: u64) {
        proof {
            lemma_fits_iff_lt(self as u64, 8);
        }
        self as u64
    }

    fn from_u64(v: u64) -> (r: Self) {
        proof {
            lemma_fits_iff_lt(v, 8);
            assert(Self::spec_bits() == 8);
            assert(fits(v, 8));
            assert(v < (1u64 << 8u64));
        }
        v as u8
    }
}

impl Word for u16 {
    open spec fn spec_bits() -> nat {
        16
    }

    proof fn lemma_width() {
    }

    open spec fn value(self) -> u64 {
        self as u64
    }

    fn bits() -> (r: u64) {
        16
    }

    fn to_u64(self) -> (r: u64) {
        proof {
            lemma_fits_iff_lt(self as u64, 16);
        }
        self as u64
    }

    fn from_u64(v: u64) -> (r: Self) {
        proof {
            lemma_fits_iff_lt(v, 16);
            assert(Self::spec_bits() == 16);
            assert(fits(v, 16));
            assert(v < (1u64 << 16u64));
        }
        v as u16
    }
}

impl Word for u32 {
    open spec fn spec_bits() -> nat {
        32
    }

    proof fn lemma_width() {
    }

    open spec fn value(self) -> u64 {
        self as u64
    }

    fn bits() -> (r: u64) {
        32
    }

    fn to_u64(self) -> (r: u64) {
        proof {
            lemma_fits_iff_lt(self as u64, 32);
        }
        self as u64
    }

    fn from_u64(v: u64) -> (r: Self) {
        proof {
            lemma_fits_iff_lt(v, 32);
            assert(Self::spec_bits() == 32);
            assert(fits(v, 32));
            assert(v < (1u64 << 32u64));
        }
        v as u32
    }
}

impl Word for u64 {
    open spec fn spec_bits() -> nat {
        64
    }

    proof fn lemma_width() {
    }

    open spec fn value(self) -> u64 {
        self
    }

    fn bits() -> (r: u64) {
        64
    }

    fn to_u64(self) -> (r: u64) {
        self
    }

    fn from_u64(v: u64) -> (r: Self) {
        v
    }
}

/// Lossless cast, from a word to one at least as wide.
pub trait CastAs<T: Word>: Word {
    fn cast_as(self) -> (r: T)
        requires
            Self::spec_bits() <= T::spec_bits(),
        ensures
            r.value() == self.value(),
    ;
}

impl<A: Word, T: Word> CastAs<T> for A {
    fn cast_as(self) -> (r: T) {
        let v = self.to_u64();
        T::from_u64(v)
    }
}

/// Cast that fails, with `None`, when the value does not fit in the target.
pub trait CastTo<T: Word>: Word {
    fn cast_to(self) -> (r: Option<T>)
        ensures
            r is Some <==> fits(self.value(), T::spec_bits()),
            r matches Some(x) ==> x.value() == self.value(),
    ;
}

impl<A: Word, T: Word> CastTo<T> for A {
    fn cast_to(self) -> (r: Option<T>) {
        let v = self.to_u64();
        let w = T::bits();
        if w == 64 {
            Some(T::from_u64(v))
        } else {
            proof {
                lemma_fits_iff_lt(v, w);
            }
            if v < (1u64 << w) {
                Some(T::from_u64(v))
            } else {
                None
            }
        }
    }
}

impl Word for usize {
    open spec fn spec_bits() -> nat {
        usize::BITS as nat
    }

    proof fn lemma_width() {
    }

    open spec fn value(self) -> u64 {
        self as u64
    }

    fn bits() -> (r: u64) {
        usize::BITS as u64
    }

    fn to_u64(self) -> (r: u64) {
        proof {
            lemma_fits_usize(self as u64);
        }
        self as u64
    }

    fn from_u64(v: u64) -> (r: Self) {
        proof {
            if usize::BITS == 32 {
                lemma_fits_iff_lt(v, 32);
                assert(Self::spec_bits() == 32);
                assert(fits(v, 32));
                assert(v < 0x1_0000_0000);
                assert(usize::MAX == 0xffff_ffff);
            } else {
                assert(usize::MAX == u64::MAX);
            }
            assert(v <= usize::MAX);
        }
        v as usize
    }
}

/// A value up to `usize::MAX` fits in the bits of a `usize`.
pub proof fn lemma_fits_usize(x: u64)
    requires
        x <= usize::MAX,
    ensures
        fits(x, usize::BITS as nat),
{
    if usize::BITS == 32 {
        lemma_fits_iff_lt(x, 32);
    }
}

/// Converts a word into another word that holds its value; the value must
/// fit in the target.
pub fn cast<U: CastTo<T>, T: Word>(u: U) -> (r: T)
    requires
        fits(u.value(), T::spec_bits()),
    ensures
        r.value() == u.value(),
{
    match u.cast_to() {
        Some(x) => x,
        None => {
            proof {
                assert(false);
            }
            T::zero()
        },
    }
}

} // verus!
