//! RRR coding of 15-bit blocks held in `u16`.

use vstd::prelude::*;
use vstd::arithmetic::power2::{pow2, lemma2_to64, lemma2_to64_rest};
use crate::rrr::{
    comb, comb_table, decode_block, encode_block, rank_offset, unrank, lemma_comb_le_pow2,
    lemma_fits_lt, lemma_rank_offset_bound, lemma_rank_unrank, lemma_unrank_fits, lemma_unrank_rank,
};
use crate::word::{low_mask, ones};

verus! {

/// Size of a block in bits.
pub const SIZE: u64 = 15;

/// Minimum bits size to represent a class value.
pub const CLASS_SIZE: u8 = 4;

/// Encodes data into a pair of `class` and `offset`; only the low `SIZE` bits count.
pub fn encode(data: u16) -> (res: (u8, u16))
    ensures
        res.0 == ones(data as u64, SIZE as nat),
        res.1 == rank_offset(data as u64, SIZE as nat, res.0 as nat),
        res.1 < comb(SIZE as nat, res.0 as nat),
        unrank(SIZE as nat, res.0 as nat, res.1 as nat) == (data as u64) & low_mask(SIZE),
{
    let table = comb_table((SIZE + 1) as usize);
    let (class, offset) = encode_block(&table, SIZE, data as u64);
    proof {
        lemma_comb_le_pow2(SIZE as nat, class as nat);
        lemma2_to64();
        lemma2_to64_rest();
        assert(pow2(SIZE as nat) <= u16::MAX as nat + 1);
        lemma_unrank_rank(data as u64, SIZE as nat);
        lemma_rank_offset_bound(data as u64, SIZE as nat);
    }
    (class as u8, offset as u16)
}

/// Decodes data from a pair of `class` and `offset`.
pub fn decode(class: u8, offset: u16) -> (data: u16)
    requires
        class as u64 <= SIZE,
    ensures
        data == unrank(SIZE as nat, class as nat, offset as nat),
        offset < comb(SIZE as nat, class as nat) ==> ones(data as u64, SIZE as nat) == class
            && rank_offset(data as u64, SIZE as nat, class as nat) == offset,
{
    let table = comb_table((SIZE + 1) as usize);
    let data = decode_block(&table, SIZE, class as u64, offset as u64);
    proof {
        lemma_unrank_fits(SIZE as nat, class as nat, offset as nat);
        lemma_fits_lt(data, SIZE);
        lemma2_to64();
        lemma2_to64_rest();
        if offset < comb(SIZE as nat, class as nat) {
            lemma_rank_unrank(SIZE as nat, class as nat, offset as nat);
        }
    }
    data as u16
}

} // verus!
