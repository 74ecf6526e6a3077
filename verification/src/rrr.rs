//! RRR block coding: a block of bits is stored as its class (the number of
//! ones) and its offset (its rank among all blocks of that class).

pub mod rrr04;
pub mod rrr15;
pub mod rrr31;
pub mod rrr63;

use vstd::prelude::*;
use vstd::arithmetic::power2::{pow2, lemma_pow2_unfold, lemma_pow2_pos};
use vstd::bits::lemma_u64_pow2_no_overflow;
use crate::word::{
    bit, ones, fits, low_mask, count_ones, mask_below, lemma_bits_of_ops, lemma_bits_of_masks,
    lemma_ones_ext, lemma_ones_zero_above, lemma_bits_ext, lemma_ones_bounds,
};

verus! {

/// The number of ways to choose `k` items out of `n`, by Pascal's rule.
pub open spec fn comb(n: nat, k: nat) -> nat
    decreases n,
{
    if k == 0 {
        1
    } else if n == 0 {
        0
    } else {
        comb((n - 1) as nat, (k - 1) as nat) + comb((n - 1) as nat, k)
    }
}

/// `C(n, k) <= 2^n`.
pub proof fn lemma_comb_le_pow2(n: nat, k: nat)
    ensures
        comb(n, k) <= pow2(n),
    decreases n,
{
    lemma_pow2_pos(n);
    if k != 0 && n != 0 {
        lemma_comb_le_pow2((n - 1) as nat, (k - 1) as nat);
        lemma_comb_le_pow2((n - 1) as nat, k);
        lemma_pow2_unfold(n);
    }
}

/// There is no way to choose more items than there are.
pub proof fn lemma_comb_above(n: nat, k: nat)
    requires
        n < k,
    ensures
        comb(n, k) == 0,
    decreases n,
{
    if n > 0 {
        lemma_comb_above((n - 1) as nat, (k - 1) as nat);
        lemma_comb_above((n - 1) as nat, k);
    }
}

/// `C(n, 1) == n`.
proof fn lemma_comb_one(n: nat)
    ensures
        comb(n, 1) == n,
    decreases n,
{
    if n > 0 {
        lemma_comb_one((n - 1) as nat);
        assert(comb((n - 1) as nat, 0) == 1);
        assert(comb(n, 1) == comb((n - 1) as nat, 0) + comb((n - 1) as nat, 1));
    }
}

/// Neighbouring binomial coefficients: `(k + 1) C(n, k + 1) == (n - k) C(n, k)`.
pub proof fn lemma_comb_ratio(n: nat, k: nat)
    requires
        k < n,
    ensures
        (k + 1) * comb(n, k + 1) == (n - k) * comb(n, k),
    decreases n,
{
    lemma_comb_one(n);
    assert(comb(n, 0) == 1);
    if k == 0 {
        assert((k + 1) * comb(n, k + 1) == (n - k) * comb(n, k)) by (nonlinear_arith)
            requires
                k == 0,
                comb(n, 1) == n,
                comb(n, 0) == 1,
        ;
    } else {
        let a = comb((n - 1) as nat, (k - 1) as nat);
        let b = comb((n - 1) as nat, k);
        let c = comb((n - 1) as nat, k + 1);
        if k + 1 < n {
            lemma_comb_ratio((n - 1) as nat, k);
        } else {
            lemma_comb_above((n - 1) as nat, k + 1);
            assert((k + 1) * c == (n - 1 - k) * b) by (nonlinear_arith)
                requires
                    c == 0,
                    k + 1 == n,
            ;
        }
        lemma_comb_ratio((n - 1) as nat, (k - 1) as nat);
        assert(comb(n, k + 1) == b + c);
        assert(comb(n, k) == a + b);
        assert((k + 1) * (b + c) == (n - k) * (a + b)) by (nonlinear_arith)
            requires
                (k + 1) * c == (n - 1 - k) * b,
                k * b == (n - 1 - (k - 1)) * a,
                k < n,
                k > 0,
        ;
    }
}

/// Binomial coefficients grow with the number of items.
pub proof fn lemma_comb_grows(n: nat, m: nat, k: nat)
    requires
        n <= m,
    ensures
        comb(n, k) <= comb(m, k),
    decreases m,
{
    if m > n {
        lemma_comb_grows(n, (m - 1) as nat, k);
    }
}

/// Every `C(n, k)` with `n <= 67` fits in a `u64`.
#[verifier::spinoff_prover]
pub proof fn lemma_comb_fits(n: nat, k: nat)
    requires
        n <= 67,
    ensures
        comb(n, k) <= u64::MAX,
{
    assert(comb(67, 0) == 1);
    assert(comb(67, 1) == 67) by {
        lemma_comb_ratio(67, 0);
        assert(comb(67, 1) == 67) by (nonlinear_arith)
            requires
                (0 + 1) * comb(67, 0 + 1) == (67 - 0) * comb(67, 0),
                comb(67, 0) == 1,
        ;
    }
    assert(comb(67, 2) == 2211) by {
        lemma_comb_ratio(67, 1);
        assert(comb(67, 2) == 2211) by (nonlinear_arith)
            requires
                (1 + 1) * comb(67, 1 + 1) == (67 - 1) * comb(67, 1),
                comb(67, 1) == 67,
        ;
    }
    assert(comb(67, 3) == 47905) by {
        lemma_comb_ratio(67, 2);
        assert(comb(67, 3) == 47905) by (nonlinear_arith)
            requires
                (2 + 1) * comb(67, 2 + 1) == (67 - 2) * comb(67, 2),
                comb(67, 2) == 2211,
        ;
    }
    assert(comb(67, 4) == 766480) by {
        lemma_comb_ratio(67, 3);
        assert(comb(67, 4) == 766480) by (nonlinear_arith)
            requires
                (3 + 1) * comb(67, 3 + 1) == (67 - 3) * comb(67, 3),
                comb(67, 3) == 47905,
        ;
    }
    assert(comb(67, 5) == 9657648) by {
        lemma_comb_ratio(67, 4);
        assert(comb(67, 5) == 9657648) by (nonlinear_arith)
            requires
                (4 + 1) * comb(67, 4 + 1) == (67 - 4) * comb(67, 4),
                comb(67, 4) == 766480,
        ;
    }
    assert(comb(67, 6) == 99795696) by {
        lemma_comb_ratio(67, 5);
        assert(comb(67, 6) == 99795696) by (nonlinear_arith)
            requires
                (5 + 1) * comb(67, 5 + 1) == (67 - 5) * comb(67, 5),
                comb(67, 5) == 9657648,
        ;
    }
    assert(comb(67, 7) == 869648208) by {
        lemma_comb_ratio(67, 6);
        assert(comb(67, 7) == 869648208) by (nonlinear_arith)
            requires
                (6 + 1) * comb(67, 6 + 1) == (67 - 6) * comb(67, 6),
                comb(67, 6) == 99795696,
        ;
    }
    assert(comb(67, 8) == 6522361560) by {
        lemma_comb_ratio(67, 7);
        assert(comb(67, 8) == 6522361560) by (nonlinear_arith)
            requires
                (7 + 1) * comb(67, 7 + 1) == (67 - 7) * comb(67, 7),
                comb(67, 7) == 869648208,
        ;
    }
    assert(comb(67, 9) == 42757703560) by {
        lemma_comb_ratio(67, 8);
        assert(comb(67, 9) == 42757703560) by (nonlinear_arith)
            requires
                (8 + 1) * comb(67, 8 + 1) == (67 - 8) * comb(67, 8),
                comb(67, 8) == 6522361560,
        ;
    }
    assert(comb(67, 10) == 247994680648) by {
        lemma_comb_ratio(67, 9);
        assert(comb(67, 10) == 247994680648) by (nonlinear_arith)
            requires
                (9 + 1) * comb(67, 9 + 1) == (67 - 9) * comb(67, 9),
                comb(67, 9) == 42757703560,
        ;
    }
    assert(comb(67, 11) == 1285063345176) by {
        lemma_comb_ratio(67, 10);
        assert(comb(67, 11) == 1285063345176) by (nonlinear_arith)
            requires
                (10 + 1) * comb(67, 10 + 1) == (67 - 10) * comb(67, 10),
                comb(67, 10) == 247994680648,
        ;
    }
    assert(comb(67, 12) == 5996962277488) by {
        lemma_comb_ratio(67, 11);
        assert(comb(67, 12) == 5996962277488) by (nonlinear_arith)
            requires
                (11 + 1) * comb(67, 11 + 1) == (67 - 11) * comb(67, 11),
                comb(67, 11) == 1285063345176,
        ;
    }
    assert(comb(67, 13) == 25371763481680) by {
        lemma_comb_ratio(67, 12);
        assert(comb(67, 13) == 25371763481680) by (nonlinear_arith)
            requires
                (12 + 1) * comb(67, 12 + 1) == (67 - 12) * comb(67, 12),
                comb(67, 12) == 5996962277488,
        ;
    }
    assert(comb(67, 14) == 97862516286480) by {
        lemma_comb_ratio(67, 13);
        assert(comb(67, 14) == 97862516286480) by (nonlinear_arith)
            requires
                (13 + 1) * comb(67, 13 + 1) == (67 - 13) * comb(67, 13),
                comb(67, 13) == 25371763481680,
        ;
    }
    assert(comb(67, 15) == 345780890878896) by {
        lemma_comb_ratio(67, 14);
        assert(comb(67, 15) == 345780890878896) by (nonlinear_arith)
            requires
                (14 + 1) * comb(67, 14 + 1) == (67 - 14) * comb(67, 14),
                comb(67, 14) == 97862516286480,
        ;
    }
    assert(comb(67, 16) == 1123787895356412) by {
        lemma_comb_ratio(67, 15);
        assert(comb(67, 16) == 1123787895356412) by (nonlinear_arith)
            requires
                (15 + 1) * comb(67, 15 + 1) == (67 - 15) * comb(67, 15),
                comb(67, 15) == 345780890878896,
        ;
    }
    assert(comb(67, 17) == 3371363686069236) by {
        lemma_comb_ratio(67, 16);
        assert(comb(67, 17) == 3371363686069236) by (nonlinear_arith)
            requires
                (16 + 1) * comb(67, 16 + 1) == (67 - 16) * comb(67, 16),
                comb(67, 16) == 1123787895356412,
        ;
    }
    assert(comb(67, 18) == 9364899127970100) by {
        lemma_comb_ratio(67, 17);
        assert(comb(67, 18) == 9364899127970100) by (nonlinear_arith)
            requires
                (17 + 1) * comb(67, 17 + 1) == (67 - 17) * comb(67, 17),
                comb(67, 17) == 3371363686069236,
        ;
    }
    assert(comb(67, 19) == 24151581961607100) by {
        lemma_comb_ratio(67, 18);
        assert(comb(67, 19) == 24151581961607100) by (nonlinear_arith)
            requires
                (18 + 1) * comb(67, 18 + 1) == (67 - 18) * comb(67, 18),
                comb(67, 18) == 9364899127970100,
        ;
    }
    assert(comb(67, 20) == 57963796707857040) by {
        lemma_comb_ratio(67, 19);
        assert(comb(67, 20) == 57963796707857040) by (nonlinear_arith)
            requires
                (19 + 1) * comb(67, 19 + 1) == (67 - 19) * comb(67, 19),
                comb(67, 19) == 24151581961607100,
        ;
    }
    assert(comb(67, 21) == 129728497393775280) by {
        lemma_comb_ratio(67, 20);
        assert(comb(67, 21) == 129728497393775280) by (nonlinear_arith)
            requires
                (20 + 1) * comb(67, 20 + 1) == (67 - 20) * comb(67, 20),
                comb(67, 20) == 57963796707857040,
        ;
    }
    assert(comb(67, 22) == 271250494550621040) by {
        lemma_comb_ratio(67, 21);
        assert(comb(67, 22) == 271250494550621040) by (nonlinear_arith)
            requires
                (21 + 1) * comb(67, 21 + 1) == (67 - 21) * comb(67, 21),
                comb(67, 21) == 129728497393775280,
        ;
    }
    assert(comb(67, 23) == 530707489338171600) by {
        lemma_comb_ratio(67, 22);
        assert(comb(67, 23) == 530707489338171600) by (nonlinear_arith)
            requires
                (22 + 1) * comb(67, 22 + 1) == (67 - 22) * comb(67, 22),
                comb(67, 22) == 271250494550621040,
        ;
    }
    assert(comb(67, 24) == 972963730453314600) by {
        lemma_comb_ratio(67, 23);
        assert(comb(67, 24) == 972963730453314600) by (nonlinear_arith)
            requires
                (23 + 1) * comb(67, 23 + 1) == (67 - 23) * comb(67, 23),
                comb(67, 23) == 530707489338171600,
        ;
    }
    assert(comb(67, 25) == 1673497616379701112) by {
        lemma_comb_ratio(67, 24);
        assert(comb(67, 25) == 1673497616379701112) by (nonlinear_arith)
            requires
                (24 + 1) * comb(67, 24 + 1) == (67 - 24) * comb(67, 24),
                comb(67, 24) == 972963730453314600,
        ;
    }
    assert(comb(67, 26) == 2703342303382594104) by {
        lemma_comb_ratio(67, 25);
        assert(comb(67, 26) == 2703342303382594104) by (nonlinear_arith)
            requires
                (25 + 1) * comb(67, 25 + 1) == (67 - 25) * comb(67, 25),
                comb(67, 25) == 1673497616379701112,
        ;
    }
    assert(comb(67, 27) == 4105075349580976232) by {
        lemma_comb_ratio(67, 26);
        assert(comb(67, 27) == 4105075349580976232) by (nonlinear_arith)
            requires
                (26 + 1) * comb(67, 26 + 1) == (67 - 26) * comb(67, 26),
                comb(67, 26) == 2703342303382594104,
        ;
    }
    assert(comb(67, 28) == 5864393356544251760) by {
        lemma_comb_ratio(67, 27);
        assert(comb(67, 28) == 5864393356544251760) by (nonlinear_arith)
            requires
                (27 + 1) * comb(67, 27 + 1) == (67 - 27) * comb(67, 27),
                comb(67, 27) == 4105075349580976232,
        ;
    }
    assert(comb(67, 29) == 7886597962249166160) by {
        lemma_comb_ratio(67, 28);
        assert(comb(67, 29) == 7886597962249166160) by (nonlinear_arith)
            requires
                (28 + 1) * comb(67, 28 + 1) == (67 - 28) * comb(67, 28),
                comb(67, 28) == 5864393356544251760,
        ;
    }
    assert(comb(67, 30) == 9989690752182277136) by {
        lemma_comb_ratio(67, 29);
        assert(comb(67, 30) == 9989690752182277136) by (nonlinear_arith)
            requires
                (29 + 1) * comb(67, 29 + 1) == (67 - 29) * comb(67, 29),
                comb(67, 29) == 7886597962249166160,
        ;
    }
    assert(comb(67, 31) == 11923179284862717872) by {
        lemma_comb_ratio(67, 30);
        assert(comb(67, 31) == 11923179284862717872) by (nonlinear_arith)
            requires
                (30 + 1) * comb(67, 30 + 1) == (67 - 30) * comb(67, 30),
                comb(67, 30) == 9989690752182277136,
        ;
    }
    assert(comb(67, 32) == 13413576695470557606) by {
        lemma_comb_ratio(67, 31);
        assert(comb(67, 32) == 13413576695470557606) by (nonlinear_arith)
            requires
                (31 + 1) * comb(67, 31 + 1) == (67 - 31) * comb(67, 31),
                comb(67, 31) == 11923179284862717872,
        ;
    }
    assert(comb(67, 33) == 14226520737620288370) by {
        lemma_comb_ratio(67, 32);
        assert(comb(67, 33) == 14226520737620288370) by (nonlinear_arith)
            requires
                (32 + 1) * comb(67, 32 + 1) == (67 - 32) * comb(67, 32),
                comb(67, 32) == 13413576695470557606,
        ;
    }
    assert(comb(67, 34) == 14226520737620288370) by {
        lemma_comb_ratio(67, 33);
        assert(comb(67, 34) == 14226520737620288370) by (nonlinear_arith)
            requires
                (33 + 1) * comb(67, 33 + 1) == (67 - 33) * comb(67, 33),
                comb(67, 33) == 14226520737620288370,
        ;
    }
    assert(comb(67, 35) == 13413576695470557606) by {
        lemma_comb_ratio(67, 34);
        assert(comb(67, 35) == 13413576695470557606) by (nonlinear_arith)
            requires
                (34 + 1) * comb(67, 34 + 1) == (67 - 34) * comb(67, 34),
                comb(67, 34) == 14226520737620288370,
        ;
    }
    assert(comb(67, 36) == 11923179284862717872) by {
        lemma_comb_ratio(67, 35);
        assert(comb(67, 36) == 11923179284862717872) by (nonlinear_arith)
            requires
                (35 + 1) * comb(67, 35 + 1) == (67 - 35) * comb(67, 35),
                comb(67, 35) == 13413576695470557606,
        ;
    }
    assert(comb(67, 37) == 9989690752182277136) by {
        lemma_comb_ratio(67, 36);
        assert(comb(67, 37) == 9989690752182277136) by (nonlinear_arith)
            requires
                (36 + 1) * comb(67, 36 + 1) == (67 - 36) * comb(67, 36),
                comb(67, 36) == 11923179284862717872,
        ;
    }
    assert(comb(67, 38) == 7886597962249166160) by {
        lemma_comb_ratio(67, 37);
        assert(comb(67, 38) == 7886597962249166160) by (nonlinear_arith)
            requires
                (37 + 1) * comb(67, 37 + 1) == (67 - 37) * comb(67, 37),
                comb(67, 37) == 9989690752182277136,
        ;
    }
    assert(comb(67, 39) == 5864393356544251760) by {
        lemma_comb_ratio(67, 38);
        assert(comb(67, 39) == 5864393356544251760) by (nonlinear_arith)
            requires
                (38 + 1) * comb(67, 38 + 1) == (67 - 38) * comb(67, 38),
                comb(67, 38) == 7886597962249166160,
        ;
    }
    assert(comb(67, 40) == 4105075349580976232) by {
        lemma_comb_ratio(67, 39);
        assert(comb(67, 40) == 4105075349580976232) by (nonlinear_arith)
            requires
                (39 + 1) * comb(67, 39 + 1) == (67 - 39) * comb(67, 39),
                comb(67, 39) == 5864393356544251760,
        ;
    }
    assert(comb(67, 41) == 2703342303382594104) by {
        lemma_comb_ratio(67, 40);
        assert(comb(67, 41) == 2703342303382594104) by (nonlinear_arith)
            requires
                (40 + 1) * comb(67, 40 + 1) == (67 - 40) * comb(67, 40),
                comb(67, 40) == 4105075349580976232,
        ;
    }
    assert(comb(67, 42) == 1673497616379701112) by {
        lemma_comb_ratio(67, 41);
        assert(comb(67, 42) == 1673497616379701112) by (nonlinear_arith)
            requires
                (41 + 1) * comb(67, 41 + 1) == (67 - 41) * comb(67, 41),
                comb(67, 41) == 2703342303382594104,
        ;
    }
    assert(comb(67, 43) == 972963730453314600) by {
        lemma_comb_ratio(67, 42);
        assert(comb(67, 43) == 972963730453314600) by (nonlinear_arith)
            requires
                (42 + 1) * comb(67, 42 + 1) == (67 - 42) * comb(67, 42),
                comb(67, 42) == 1673497616379701112,
        ;
    }
    assert(comb(67, 44) == 530707489338171600) by {
        lemma_comb_ratio(67, 43);
        assert(comb(67, 44) == 530707489338171600) by (nonlinear_arith)
            requires
                (43 + 1) * comb(67, 43 + 1) == (67 - 43) * comb(67, 43),
                comb(67, 43) == 972963730453314600,
        ;
    }
    assert(comb(67, 45) == 271250494550621040) by {
        lemma_comb_ratio(67, 44);
        assert(comb(67, 45) == 271250494550621040) by (nonlinear_arith)
            requires
                (44 + 1) * comb(67, 44 + 1) == (67 - 44) * comb(67, 44),
                comb(67, 44) == 530707489338171600,
        ;
    }
    assert(comb(67, 46) == 129728497393775280) by {
        lemma_comb_ratio(67, 45);
        assert(comb(67, 46) == 129728497393775280) by (nonlinear_arith)
            requires
                (45 + 1) * comb(67, 45 + 1) == (67 - 45) * comb(67, 45),
                comb(67, 45) == 271250494550621040,
        ;
    }
    assert(comb(67, 47) == 57963796707857040) by {
        lemma_comb_ratio(67, 46);
        assert(comb(67, 47) == 57963796707857040) by (nonlinear_arith)
            requires
                (46 + 1) * comb(67, 46 + 1) == (67 - 46) * comb(67, 46),
                comb(67, 46) == 129728497393775280,
        ;
    }
    assert(comb(67, 48) == 24151581961607100) by {
        lemma_comb_ratio(67, 47);
        assert(comb(67, 48) == 24151581961607100) by (nonlinear_arith)
            requires
                (47 + 1) * comb(67, 47 + 1) == (67 - 47) * comb(67, 47),
                comb(67, 47) == 57963796707857040,
        ;
    }
    assert(comb(67, 49) == 9364899127970100) by {
        lemma_comb_ratio(67, 48);
        assert(comb(67, 49) == 9364899127970100) by (nonlinear_arith)
            requires
                (48 + 1) * comb(67, 48 + 1) == (67 - 48) * comb(67, 48),
                comb(67, 48) == 24151581961607100,
        ;
    }
    assert(comb(67, 50) == 3371363686069236) by {
        lemma_comb_ratio(67, 49);
        assert(comb(67, 50) == 3371363686069236) by (nonlinear_arith)
            requires
                (49 + 1) * comb(67, 49 + 1) == (67 - 49) * comb(67, 49),
                comb(67, 49) == 9364899127970100,
        ;
    }
    assert(comb(67, 51) == 1123787895356412) by {
        lemma_comb_ratio(67, 50);
        assert(comb(67, 51) == 1123787895356412) by (nonlinear_arith)
            requires
                (50 + 1) * comb(67, 50 + 1) == (67 - 50) * comb(67, 50),
                comb(67, 50) == 3371363686069236,
        ;
    }
    assert(comb(67, 52) == 345780890878896) by {
        lemma_comb_ratio(67, 51);
        assert(comb(67, 52) == 345780890878896) by (nonlinear_arith)
            requires
                (51 + 1) * comb(67, 51 + 1) == (67 - 51) * comb(67, 51),
                comb(67, 51) == 1123787895356412,
        ;
    }
    assert(comb(67, 53) == 97862516286480) by {
        lemma_comb_ratio(67, 52);
        assert(comb(67, 53) == 97862516286480) by (nonlinear_arith)
            requires
                (52 + 1) * comb(67, 52 + 1) == (67 - 52) * comb(67, 52),
                comb(67, 52) == 345780890878896,
        ;
    }
    assert(comb(67, 54) == 25371763481680) by {
        lemma_comb_ratio(67, 53);
        assert(comb(67, 54) == 25371763481680) by (nonlinear_arith)
            requires
                (53 + 1) * comb(67, 53 + 1) == (67 - 53) * comb(67, 53),
                comb(67, 53) == 97862516286480,
        ;
    }
    assert(comb(67, 55) == 5996962277488) by {
        lemma_comb_ratio(67, 54);
        assert(comb(67, 55) == 5996962277488) by (nonlinear_arith)
            requires
                (54 + 1) * comb(67, 54 + 1) == (67 - 54) * comb(67, 54),
                comb(67, 54) == 25371763481680,
        ;
    }
    assert(comb(67, 56) == 1285063345176) by {
        lemma_comb_ratio(67, 55);
        assert(comb(67, 56) == 1285063345176) by (nonlinear_arith)
            requires
                (55 + 1) * comb(67, 55 + 1) == (67 - 55) * comb(67, 55),
                comb(67, 55) == 5996962277488,
        ;
    }
    assert(comb(67, 57) == 247994680648) by {
        lemma_comb_ratio(67, 56);
        assert(comb(67, 57) == 247994680648) by (nonlinear_arith)
            requires
                (56 + 1) * comb(67, 56 + 1) == (67 - 56) * comb(67, 56),
                comb(67, 56) == 1285063345176,
        ;
    }
    assert(comb(67, 58) == 42757703560) by {
        lemma_comb_ratio(67, 57);
        assert(comb(67, 58) == 42757703560) by (nonlinear_arith)
            requires
                (57 + 1) * comb(67, 57 + 1) == (67 - 57) * comb(67, 57),
                comb(67, 57) == 247994680648,
        ;
    }
    assert(comb(67, 59) == 6522361560) by {
        lemma_comb_ratio(67, 58);
        assert(comb(67, 59) == 6522361560) by (nonlinear_arith)
            requires
                (58 + 1) * comb(67, 58 + 1) == (67 - 58) * comb(67, 58),
                comb(67, 58) == 42757703560,
        ;
    }
    assert(comb(67, 60) == 869648208) by {
        lemma_comb_ratio(67, 59);
        assert(comb(67, 60) == 869648208) by (nonlinear_arith)
            requires
                (59 + 1) * comb(67, 59 + 1) == (67 - 59) * comb(67, 59),
                comb(67, 59) == 6522361560,
        ;
    }
    assert(comb(67, 61) == 99795696) by {
        lemma_comb_ratio(67, 60);
        assert(comb(67, 61) == 99795696) by (nonlinear_arith)
            requires
                (60 + 1) * comb(67, 60 + 1) == (67 - 60) * comb(67, 60),
                comb(67, 60) == 869648208,
        ;
    }
    assert(comb(67, 62) == 9657648) by {
        lemma_comb_ratio(67, 61);
        assert(comb(67, 62) == 9657648) by (nonlinear_arith)
            requires
                (61 + 1) * comb(67, 61 + 1) == (67 - 61) * comb(67, 61),
                comb(67, 61) == 99795696,
        ;
    }
    assert(comb(67, 63) == 766480) by {
        lemma_comb_ratio(67, 62);
        assert(comb(67, 63) == 766480) by (nonlinear_arith)
            requires
                (62 + 1) * comb(67, 62 + 1) == (67 - 62) * comb(67, 62),
                comb(67, 62) == 9657648,
        ;
    }
    assert(comb(67, 64) == 47905) by {
        lemma_comb_ratio(67, 63);
        assert(comb(67, 64) == 47905) by (nonlinear_arith)
            requires
                (63 + 1) * comb(67, 63 + 1) == (67 - 63) * comb(67, 63),
                comb(67, 63) == 766480,
        ;
    }
    assert(comb(67, 65) == 2211) by {
        lemma_comb_ratio(67, 64);
        assert(comb(67, 65) == 2211) by (nonlinear_arith)
            requires
                (64 + 1) * comb(67, 64 + 1) == (67 - 64) * comb(67, 64),
                comb(67, 64) == 47905,
        ;
    }
    assert(comb(67, 66) == 67) by {
        lemma_comb_ratio(67, 65);
        assert(comb(67, 66) == 67) by (nonlinear_arith)
            requires
                (65 + 1) * comb(67, 65 + 1) == (67 - 65) * comb(67, 65),
                comb(67, 65) == 2211,
        ;
    }
    assert(comb(67, 67) == 1) by {
        lemma_comb_ratio(67, 66);
        assert(comb(67, 67) == 1) by (nonlinear_arith)
            requires
                (66 + 1) * comb(67, 66 + 1) == (67 - 66) * comb(67, 66),
                comb(67, 66) == 67,
        ;
    }
    if k <= 67 {
        lemma_comb_grows(n, 67, k);
        assert(comb(67, k) <= u64::MAX);
    } else {
        lemma_comb_above(n, k);
    }
}

/// `t` holds `C(n, k)` at row `n` and column `k`, for `n` and `k` below `size`.
pub open spec fn is_comb_table(t: Seq<Vec<u64>>, size: nat) -> bool {
    &&& t.len() == size
    &&& forall|n: int| 0 <= n < size ==> #[trigger] t[n]@.len() == size
    &&& forall|n: int, k: int|
        0 <= n < size && 0 <= k < size ==> #[trigger] t[n]@[k] == comb(n as nat, k as nat)
}

/// Builds the `size` x `size` table of binomial coefficients `C(n, k)`.
pub fn comb_table(size: usize) -> (table: Vec<Vec<u64>>)
    requires
        size <= 68,
    ensures
        is_comb_table(table@, size as nat),
{
    let mut table: Vec<Vec<u64>> = Vec::new();
    let mut n: usize = 0;
    while n < size
        invariant
            n <= size <= 68,
            table@.len() == n,
            forall|i: int| 0 <= i < n ==> #[trigger] table@[i]@.len() == size,
            forall|i: int, k: int|
                0 <= i < n && 0 <= k < size ==> #[trigger] table@[i]@[k] == comb(i as nat, k as nat),
        decreases size - n,
    {
        let mut row: Vec<u64> = Vec::new();
        let mut k: usize = 0;
        while k < size
            invariant
                n < size <= 68,
                k <= size,
                table@.len() == n,
                forall|i: int| 0 <= i < n ==> #[trigger] table@[i]@.len() == size,
                forall|i: int, j: int|
                    0 <= i < n && 0 <= j < size ==> #[trigger] table@[i]@[j] == comb(i as nat, j as nat),
                row@.len() == k,
                forall|j: int| 0 <= j < k ==> #[trigger] row@[j] == comb(n as nat, j as nat),
            decreases size - k,
        {
            let v: u64 = if k == 0 {
                // first column
                1
            } else if n == 0 {
                // first row, right of the diagonal
                0
            } else {
                proof {
                    lemma_comb_fits(n as nat, k as nat);
                    assert(table@[n - 1]@[k - 1] == comb((n - 1) as nat, (k - 1) as nat));
                    assert(table@[n - 1]@[k as int] == comb((n - 1) as nat, k as nat));
                }
                table[n - 1][k - 1] + table[n - 1][k]
            };
            row.push(v);
            k = k + 1;
        }
        table.push(row);
        n = n + 1;
    }
    table
}

/// Builds the table of binomial coefficients `C(n, k)` for `n, k <= size`.
pub fn gen_comb_table(size: usize) -> (table: Vec<Vec<u64>>)
    requires
        size <= 67,
    ensures
        is_comb_table(table@, size as nat + 1),
{
    comb_table(size + 1)
}

/// The offset of the pattern formed by the bits of `x` below `b`, among all
/// patterns of `b` bits with `c` ones, enumerated from the high bit down.
pub open spec fn rank_offset(x: u64, b: nat, c: nat) -> nat
    decreases b,
{
    if b == 0 || c == 0 {
        0
    } else if bit(x, (b - 1) as nat) {
        comb((b - 1) as nat, c) + rank_offset(x, (b - 1) as nat, (c - 1) as nat)
    } else {
        rank_offset(x, (b - 1) as nat, c)
    }
}

/// The pattern of `b` bits with `c` ones whose offset is `o`.
pub open spec fn unrank(b: nat, c: nat, o: nat) -> u64
    decreases b,
{
    if b == 0 || c == 0 {
        0
    } else if o >= comb((b - 1) as nat, c) {
        unrank((b - 1) as nat, (c - 1) as nat, (o - comb((b - 1) as nat, c)) as nat) | (1u64 << ((b
            - 1) as u64))
    } else {
        unrank((b - 1) as nat, c, o)
    }
}

proof fn lemma_or_laws(a: u64, b: u64, c: u64)
    by (bit_vector)
    ensures
        (a | b) | c == a | (c | b),
        a | 0u64 == a,
        0u64 | a == a,
{
}

/// The offset only depends on the bits below `b`.
pub proof fn lemma_rank_offset_ext(x: u64, y: u64, b: nat, c: nat)
    requires
        forall|j: nat| j < b ==> #[trigger] bit(x, j) == bit(y, j),
    ensures
        rank_offset(x, b, c) == rank_offset(y, b, c),
    decreases b,
{
    if b > 0 && c > 0 {
        assert(bit(x, (b - 1) as nat) == bit(y, (b - 1) as nat));
        lemma_rank_offset_ext(x, y, (b - 1) as nat, c);
        lemma_rank_offset_ext(x, y, (b - 1) as nat, (c - 1) as nat);
    }
}

/// A pattern with no ones has no set bit.
pub proof fn lemma_ones_zero(x: u64, n: nat)
    requires
        ones(x, n) == 0,
    ensures
        forall|j: nat| j < n ==> !#[trigger] bit(x, j),
    decreases n,
{
    if n > 0 {
        lemma_ones_zero(x, (n - 1) as nat);
    }
}

/// The offset of a block is smaller than the number of blocks of its class.
pub proof fn lemma_rank_offset_bound(x: u64, b: nat)
    ensures
        rank_offset(x, b, ones(x, b)) < comb(b, ones(x, b)),
        ones(x, b) <= b,
    decreases b,
{
    lemma_ones_bounds(x, 0, b);
    if b > 0 {
        let c = ones(x, b);
        lemma_rank_offset_bound(x, (b - 1) as nat);
        if c > 0 && !bit(x, (b - 1) as nat) {
            assert(comb(b, c) == comb((b - 1) as nat, (c - 1) as nat) + comb((b - 1) as nat, c));
        }
    }
}

/// Decoding the class and offset of a block gives back its low `b` bits.
pub proof fn lemma_unrank_rank(x: u64, b: nat)
    requires
        b <= 64,
    ensures
        unrank(b, ones(x, b), rank_offset(x, b, ones(x, b))) == x & low_mask(b as u64),
    decreases b,
{
    let c = ones(x, b);
    lemma_bits_of_ops(x, low_mask(b as u64));
    if b < 64 {
        lemma_bits_of_masks(b as u64);
    } else {
        lemma_bits_of_ops(0, 0);
    }
    lemma_bits_of_ops(0, 0);
    if b == 0 || c == 0 {
        if c == 0 {
            lemma_ones_zero(x, b);
        }
        lemma_bits_ext(0, x & low_mask(b as u64));
    } else {
        let p = (b - 1) as nat;
        lemma_unrank_rank(x, p);
        lemma_bits_of_masks(p as u64);
        lemma_bits_of_ops(x, low_mask(p as u64));
        let lower = x & low_mask(p as u64);
        if bit(x, p) {
            let top = 1u64 << (p as u64);
            lemma_bits_of_ops(lower, top);
            lemma_bits_ext(lower | top, x & low_mask(b as u64));
        } else {
            lemma_rank_offset_bound(x, p);
            lemma_bits_ext(lower, x & low_mask(b as u64));
        }
    }
}

/// Encoding the block of a given class and offset gives them back.
pub proof fn lemma_rank_unrank(b: nat, c: nat, o: nat)
    requires
        b <= 64,
        c <= b,
        o < comb(b, c),
    ensures
        fits(unrank(b, c, o), b),
        ones(unrank(b, c, o), b) == c,
        rank_offset(unrank(b, c, o), b, c) == o,
    decreases b,
{
    let u = unrank(b, c, o);
    lemma_bits_of_ops(0, 0);
    if c == 0 {
        lemma_ones_zero_above(0, 0, b);
    } else {
        let p = (b - 1) as nat;
        if o >= comb(p, c) {
            let o2 = (o - comb(p, c)) as nat;
            lemma_rank_unrank(p, (c - 1) as nat, o2);
            let y = unrank(p, (c - 1) as nat, o2);
            let top = 1u64 << (p as u64);
            lemma_bits_of_masks(p as u64);
            lemma_bits_of_ops(y, top);
            assert(u == y | top);
            lemma_ones_ext(u, y, p);
            lemma_rank_offset_ext(u, y, p, (c - 1) as nat);
        } else {
            if c == b {
                lemma_comb_above(p, c);
            }
            lemma_rank_unrank(p, c, o);
        }
    }
}

/// Encodes the low `size` bits of `data` into its class and offset.
pub fn encode_block(table: &Vec<Vec<u64>>, size: u64, data: u64) -> (res: (u64, u64))
    requires
        size <= 63,
        is_comb_table(table@, size as nat + 1),
    ensures
        res.0 == ones(data, size as nat),
        res.1 == rank_offset(data, size as nat, res.0 as nat),
        res.1 < comb(size as nat, res.0 as nat),
{
    let masked = data & mask_below(size);
    let class = count_ones(masked) as u64;
    proof {
        lemma_bits_of_ops(data, low_mask(size));
        lemma_ones_zero_above(masked, size as nat, 64);
        lemma_ones_ext(masked, data, size as nat);
        lemma_rank_offset_ext(masked, data, size as nat, class as nat);
        lemma_rank_offset_bound(masked, size as nat);
        lemma_comb_le_pow2(size as nat, class as nat);
        lemma_u64_pow2_no_overflow(size as nat);
    }
    let mut b: u64 = size;
    let mut c: u64 = class;
    let mut o: u64 = 0;
    while b > 0 && c > 0
        invariant
            b <= size <= 63,
            is_comb_table(table@, size as nat + 1),
            c == ones(masked, b as nat),
            c <= b,
            o + rank_offset(masked, b as nat, c as nat) == rank_offset(masked, size as nat, class as nat),
            rank_offset(masked, size as nat, class as nat) < comb(size as nat, class as nat),
            comb(size as nat, class as nat) <= pow2(size as nat) < u64::MAX,
        decreases b,
    {
        b = b - 1;
        proof {
            lemma_bits_of_masks(b);
            lemma_ones_bounds(masked, 0, b as nat);
        }
        if masked & (1u64 << b) != 0 {
            proof {
                assert(table@[b as int]@[c as int] == comb(b as nat, c as nat));
            }
            o = o + table[b as usize][c as usize];
            c = c - 1;
        }
    }
    (class, o)
}

/// Decodes the block of `size` bits with `class` ones at `offset`.
pub fn decode_block(table: &Vec<Vec<u64>>, size: u64, class: u64, offset: u64) -> (data: u64)
    requires
        size <= 63,
        is_comb_table(table@, size as nat + 1),
        class <= size,
    ensures
        data == unrank(size as nat, class as nat, offset as nat),
{
    let mut data: u64 = 0;
    let mut b: u64 = size;
    let mut c: u64 = class;
    let mut o: u64 = offset;
    proof {
        lemma_or_laws(unrank(size as nat, class as nat, offset as nat), 0, 0);
    }
    while b > 0 && c > 0
        invariant
            b <= size <= 63,
            c <= size,
            is_comb_table(table@, size as nat + 1),
            data | unrank(b as nat, c as nat, o as nat) == unrank(
                size as nat,
                class as nat,
                offset as nat,
            ),
        decreases b,
    {
        b = b - 1;
        proof {
            assert(table@[b as int]@[c as int] == comb(b as nat, c as nat));
        }
        if o >= table[b as usize][c as usize] {
            proof {
                lemma_or_laws(
                    data,
                    1u64 << b,
                    unrank(b as nat, (c - 1) as nat, (o - table@[b as int]@[c as int]) as nat),
                );
            }
            data = data | (1u64 << b);
            o = o - table[b as usize][c as usize];
            c = c - 1;
        }
    }
    proof {
        lemma_or_laws(data, 0, 0);
    }
    data
}


/// A decoded block of `b` bits has no bit at or above `b`.
pub proof fn lemma_unrank_fits(b: nat, c: nat, o: nat)
    ensures
        fits(unrank(b, c, o), b),
    decreases b,
{
    lemma_bits_of_ops(0, 0);
    if b > 0 && c > 0 {
        let p = (b - 1) as nat;
        if o >= comb(p, c) {
            let y = unrank(p, (c - 1) as nat, (o - comb(p, c)) as nat);
            lemma_unrank_fits(p, (c - 1) as nat, (o - comb(p, c)) as nat);
            if p < 64 {
                lemma_bits_of_masks(p as u64);
                lemma_bits_of_ops(y, 1u64 << (p as u64));
            } else {
                lemma_bits_of_ops(y, 1u64 << (p as u64));
            }
        } else {
            lemma_unrank_fits(p, c, o);
        }
    }
}

proof fn lemma_low_bits_lt(x: u64, b: u64)
    by (bit_vector)
    requires
        b < 64,
    ensures
        x & (((1u64 << b) - 1) as u64) < (1u64 << b),
{
}

/// A word without bits at or above `b` is below `2^b`.
pub proof fn lemma_fits_lt(x: u64, b: u64)
    requires
        b < 64,
        fits(x, b as nat),
    ensures
        x < pow2(b as nat),
{
    lemma_bits_of_masks(b);
    lemma_bits_of_ops(x, low_mask(b));
    lemma_bits_ext(x, x & low_mask(b));
    lemma_low_bits_lt(x, b);
    lemma_u64_pow2_no_overflow(b as nat);
    vstd::bits::lemma_u64_shl_is_mul(1, b);
}

} // verus!
