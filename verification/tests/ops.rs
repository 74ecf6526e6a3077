use compacts::bit_set::ops::{Access, Count, Rank, Remove};
use compacts::bit_set::words::{BoxWords, Words};
use compacts::bit_set::BitSet;

#[test]
fn rank_of_words() {
    let x: u64 = 0b1011;
    assert_eq!(Access::size(&x), 64);
    assert!(Access::access(&x, 3));
    assert_eq!(Count::count1(&x), 3);
    assert_eq!(Count::count0(&x), 61);
    assert_eq!(Rank::rank1(&x, 2), 2);
    assert_eq!(Rank::rank0(&x, 3), 1);
    assert_eq!(Rank::excess(&x, 4), 2);
    assert_eq!(Rank::excess1(&x, 4), 2);
    assert_eq!(Rank::excess0(&x, 64), 58);
    assert_eq!(Rank::search1(&x, 2), 3);
    assert_eq!(Rank::search0(&x, 0), 2);
    assert_eq!(Rank::search0(&x, 1), 4);

    let mut b: u8 = 0b101;
    assert!(Remove::remove(&mut b, 2));
    assert_eq!(b, 1);
    assert!(!Remove::remove(&mut b, 1));
    assert_eq!(b, 1);
}

#[test]
fn rank_of_word_vectors() {
    let mut v: Vec<u64> = vec![0b101, 0b11];
    assert_eq!(v.size(), 128);
    assert_eq!(v.rank1(64), 2);
    assert_eq!(v.rank1(66), 4);
    assert_eq!(v.rank0(66), 62);
    assert_eq!(v.search1(2), 64);
    assert_eq!(v.search0(0), 1);
    assert!(Remove::remove(&mut v, 64));
    assert!(!Remove::remove(&mut v, 64));
    assert_eq!(v.rank1(128), 3);
    assert_eq!(v, vec![0b101, 0b10]);
}

#[test]
fn rank_of_blocks() {
    let mut w: BoxWords<u64> = Words::from_vec(vec![1, 0b101]);
    assert_eq!(Rank::rank1(&w, 65), 2);
    assert_eq!(Rank::rank0(&w, 65), 63);
    assert_eq!(Rank::excess(&w, 65), 61);
    assert_eq!(Rank::search1(&w, 2), 66);
    assert_eq!(Rank::search0(&w, 0), 1);
    assert!(Remove::remove(&mut w, 64));
    assert!(!Access::access(&w, 64));
    assert_eq!(Count::count1(&w), 2);
}

#[test]
fn rank_of_bit_sets() {
    let mut bv = BitSet::<u64>::from_vec(vec![1, 1000, 1000000]);
    assert_eq!(Access::size(&bv), 1 << 63);
    assert_eq!(Rank::rank1(&bv, 1000), 1);
    assert_eq!(Rank::rank0(&bv, 1000), 999);
    assert_eq!(Rank::excess0(&bv, 10), 8);
    assert_eq!(Rank::excess(&bv, 2), 0);
    assert_eq!(Rank::search1(&bv, 2), 1000000);
    assert_eq!(Rank::search0(&bv, 1), 2);
    assert_eq!(Count::count0(&bv), (1u64 << 63) - 3);
    assert!(Remove::remove(&mut bv, 1000));
    assert!(!Remove::remove(&mut bv, 1000));
    assert_eq!(Count::count1(&bv), 2);
    assert_eq!(Rank::search1(&bv, 1), 1000000);

    let mut raw = bv.0.clone();
    assert!(Remove::remove(&mut raw, 1));
    assert_eq!(Count::count1(&raw), 1);
    assert_eq!(Rank::rank1(&raw, 1000001), 1);
}
