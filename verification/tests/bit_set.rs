use compacts::bit_set::raw_vec::RawVec;
use compacts::bit_set::words::{BoxWords, CowWords, Words};
use compacts::bit_set::{BitSet, Entry};
use compacts::word::{cast, CastAs, CastTo, Word};

#[test]
fn default_value() {
    let words = Words::<u64>::default();
    assert!(words.as_ref().is_none());

    let words = CowWords::<u64>::default();
    assert!(words.as_ref().is_none());

    let zero = <u64 as Word>::zero();
    assert_eq!(zero, <u64 as Default>::default());
}

#[test]
fn access() {
    let bv: BoxWords<u64> = Words::from_vec(vec![1u64, 0b10101100001, 0b0000100000]);
    assert!(bv.access(0));
    assert!(bv.access(64));
    assert!(bv.access(70));
}

#[test]
fn count() {
    let bv: BoxWords<u64> = Words::from_vec(vec![0u64, 0b10101100000, 0b0000100000]);
    assert_eq!(bv.count1(), 5);
}

#[test]
fn rank() {
    let bv: BoxWords<u8> = Words::from_vec(vec![0u8, 0b0110_0000, 0b0001_0000]);
    assert_eq!(bv.rank1(10), 0);
    assert_eq!(bv.rank1(14), 1);
    assert_eq!(bv.rank1(15), 2);
    assert_eq!(bv.rank1(16), 2);
    assert_eq!(bv.rank1(10), 10 - bv.rank0(10));
    assert_eq!(bv.rank1(bv.size()), bv.count1());
}

#[test]
fn select() {
    let bv: BoxWords<u64> = Words::from_vec(vec![0b_0000, 0b_0100, 0b_1001]);
    assert_eq!(bv.select1(0), 66);
    assert_eq!(bv.select1(1), 128);
    assert_eq!(bv.select1(2), 131);

    let bv: BoxWords<u8> = Words::from_vec(vec![0b_11110111, 0b_11111110, 0b_10010011]);
    assert_eq!(bv.select0(0), 3);
    assert_eq!(bv.select0(1), 8);
    assert_eq!(bv.select0(2), 18);
}

#[test]
fn insert() {
    let mut bv: BoxWords<u64> = Words::from_vec(vec![0u64, 0b10101100000, 0b0000100000]);
    assert!(!bv.insert(0));
    assert!(bv.insert(0));
    assert!(bv.access(0));
}

#[test]
fn remove() {
    let mut bv: BoxWords<u64> = Words::from_vec(vec![0u64, 0b10101100001, 0b0000100000]);
    assert!(bv.remove(64));
    assert!(!bv.remove(64));
    assert!(!bv.access(64));
}

type Ty = CowWords<u64>;

#[test]
fn bitand() {
    let check = |s1: Ty, s2: Ty, count: u64| {
        let slice: Ty = s1.bitand(s2);
        assert!(slice.len() == 1024 || slice.is_empty());
        let block: BoxWords<u64> = slice;
        assert_eq!(block.count1(), count);
    };

    check(Ty::empty(), Ty::empty(), 0);
    check(Ty::splat(!0), Ty::splat(!0), 1 << 16);
    check(Ty::empty(), Ty::splat(!0), 0);
    check(Ty::splat(!0), Ty::from_vec(vec![]), 0);
    check(Ty::from_vec(vec![1u64, 1, 1, 1, 1]), Ty::empty(), 0);
    check(Ty::empty(), Ty::from_vec(vec![1u64, 1, 1, 1, 1]), 0);

    check(Ty::from_vec(vec![1u64, 1, 1, 1, 1]), Ty::from_vec(vec![0u64, 0, 0, 0, 0]), 0);
    check(Ty::from_vec(vec![1u64, 1, 1, 1, 1]), Ty::from_vec(vec![0u64, 1, 0, 1]), 2);
    check(Ty::from_vec(vec![1u64, 1, 1]), Ty::from_vec(vec![1u64, 0, 1, 0, 0]), 2);
}

#[test]
fn bitor() {
    let check = |w1: Ty, w2: Ty, count: u64| {
        let slice: Ty = w1.bitor(w2);
        assert!(slice.len() == 1024 || slice.is_empty());
        let block: BoxWords<u64> = slice;
        assert_eq!(block.count1(), count);
    };

    check(Ty::empty(), Ty::empty(), 0);
    check(Ty::splat(!0), Ty::splat(!0), 1 << 16);
    check(Ty::empty(), Ty::splat(!0), 1 << 16);
    check(Ty::splat(!0), Ty::from_vec(vec![]), 1 << 16);
    check(Ty::from_vec(vec![1u64, 1, 1, 1, 1]), Ty::from_vec(vec![]), 5);
    check(Ty::from_vec(vec![1u64, 1, 1, 1, 1]), Ty::empty(), 5);
    check(Ty::empty(), Ty::from_vec(vec![1u64, 1, 1, 1, 1]), 5);

    check(Ty::from_vec(vec![1u64, 1, 1, 1, 1]), Ty::from_vec(vec![0u64, 0, 0, 0, 0]), 5);
    check(Ty::from_vec(vec![1u64, 1, 1, 1, 1]), Ty::from_vec(vec![0u64, 1, 0, 1]), 5);
    check(Ty::from_vec(vec![1u64, 1, 1]), Ty::from_vec(vec![1u64, 0, 1, 0, 0]), 3);
}

#[test]
fn bitxor() {
    let check = |w1: Ty, w2: Ty, count: u64| {
        let slice: Ty = w1.bitxor(w2);
        assert!(slice.len() == 1024 || slice.is_empty());
        let block: BoxWords<u64> = slice;
        assert_eq!(block.count1(), count);
    };

    check(Ty::empty(), Ty::empty(), 0);
    check(Ty::splat(!0), Ty::splat(!0), 0);
    check(Ty::empty(), Ty::splat(!0), 1 << 16);
    check(Ty::splat(!0), Ty::from_vec(vec![]), 1 << 16);
    check(Ty::from_vec(vec![1u64, 1, 1, 1, 1]), Ty::from_vec(vec![]), 5);
    check(Ty::from_vec(vec![1u64, 1, 1, 1, 1]), Ty::empty(), 5);
    check(Ty::empty(), Ty::from_vec(vec![1u64, 1, 1, 1, 1]), 5);

    check(Ty::from_vec(vec![1u64, 1, 1, 1, 1]), Ty::from_vec(vec![0u64, 0, 0, 0, 1]), 4);
    check(Ty::from_vec(vec![1u64, 1, 1, 1, 1]), Ty::from_vec(vec![0u64, 1, 0, 1]), 3);
    check(Ty::from_vec(vec![1u64, 1, 1]), Ty::from_vec(vec![1u64, 0, 1, 0, 0]), 1);
}

#[test]
fn words_not_complements() {
    let w = Ty::from_vec(vec![1u64, 1, 1, 1, 1]).not();
    assert_eq!(w.count1(), (1 << 16) - 5);
    assert!(!w.access(0));
    assert!(w.access(1));
    assert_eq!(Ty::empty().not().count1(), 1 << 16);
    assert!(Ty::splat(!0).not().is_empty());
}

fn raw_vec_ops<T: Word>() {
    let mut bits = RawVec::<Entry<T>>::new();

    assert!(!bits.insert(1000));
    assert!(!bits.insert(2000));
    assert!(!bits.insert(300000));
    assert!(bits.access(1000));
    assert!(bits.access(2000));
    assert!(bits.access(300000));

    assert_eq!(bits.count1(), 3);
    assert_eq!(bits.rank1(2000), 1);
    assert_eq!(bits.rank1(300000), 2);

    assert_eq!(bits.rank1(bits.size()), bits.count1());

    assert_eq!(bits.select1(0), 1000);
    assert_eq!(bits.select1(1), 2000);
    assert_eq!(bits.select1(2), 300000);
    assert_eq!(bits.select0(0), 0);
    assert_eq!(bits.select0(1), 1);
    assert_eq!(bits.select0(2), 2);

    assert!(bits.remove(1000));
    assert!(bits.remove(2000));
    assert!(!bits.access(1000));
    assert!(!bits.access(2000));
    assert!(bits.access(300000));
    assert_eq!(bits.count1(), 1);
    assert_eq!(bits.bits.len(), 1);
}

#[test]
fn raw_vec_ops_for_each_word() {
    raw_vec_ops::<u8>();
    raw_vec_ops::<u16>();
    raw_vec_ops::<u32>();
    raw_vec_ops::<u64>();
    raw_vec_ops::<usize>();
}

#[test]
fn bit_set_insert_remove() {
    let mut bv = BitSet::<u64>::new();
    assert!(!bv.insert(1));
    assert!(bv.remove(1));
    assert!(!bv.get(1));
}

#[test]
fn bit_set_from_vec() {
    let bv = BitSet::<u64>::from_vec(vec![1, 1000, 1000000]);
    assert!(bv.get(1) && bv.get(1000) && bv.get(1000000));
    assert_eq!(bv.count1(), 3);
    assert_eq!(bv.rank1(1000000), 2);
    assert_eq!(bv.rank1(1000), 1);
    assert_eq!(bv.rank0(1000), 999);
    assert_eq!(BitSet::<u64>::new().rank0(5), 5);
    assert_eq!(BitSet::<u64>::from_vec(vec![1000]).rank0(2000), 1999);
    assert_eq!(bv.0.rank0(1000), 999);
    assert_eq!(bv.select1(2), 1000000);
    assert_eq!(bv.select0(1), 2);
    assert_eq!(bv.count0(), (1u64 << 63) - 3);
    assert_eq!(bv.excess0(10), 8);
}

#[test]
fn counts_over_ranges() {
    let bv = BitSet::<u64>::from_vec(vec![1, 1000, 1000000]);
    assert_eq!(bv.rank1(1000000), 2);
    assert_eq!(bv.rank1(1000), 1);
    assert_eq!(bv.rank1(1), 0);
    assert_eq!(bv.rank1(1000000) - bv.rank1(1000), 1);
    assert_eq!(bv.rank1(1000) - bv.rank1(1000), 0);
}

#[test]
fn bit_set_get_ranges() {
    let bv = BitSet::<u64>::from_vec(vec![1, 1000, 1000000]);
    assert!(bv.get(1) && bv.get(1000) && bv.get(1000000));
    assert!(bv.get_range(0, 1000000).count1() == 2);
    assert!(bv.get_range(0, 1000000).get_range(0, 1000).count1() == 1);
    assert!(bv.get_range(0, 1000000).get_range(0, 1000).get_range(0, 1).count1() == 0);
    assert!(bv.get_range(1000, 1000000).count1() == 1);
    assert!(bv.get_range(1000, 1000000).get_range(0, 1000).count1() == 0);
    let r = bv.get_range(1000, 1000000);
    assert!(r.get(1000) && !r.get(1) && !r.get(1000000));
    assert_eq!(bv.get_range(5, 2).count1(), 0);
    assert_eq!(bv.get_range(0, u64::MAX).count1(), 3);
}

#[test]
fn bit_set_high_positions() {
    let bits = vec![0, 1 << 30, 1 << 40, 1 << 50, 1 << 51];
    let bv = BitSet::<u64>::from_slice(&bits[..]);
    for (n, &b) in bits.iter().enumerate() {
        assert!(bv.access(b));
        assert_eq!(bv.select1(n as u64), b);
        assert_eq!(bv.rank1(b), n as u64);
    }
    assert_eq!(bv.rank1(bv.size()), 5);
}

#[test]
fn bit_set_excess() {
    let bv = BitSet::<u16>::from_vec(vec![0, 1, 2, 5]);
    assert_eq!(bv.excess1(3), 3);
    assert_eq!(bv.excess1(6), 2);
}

#[test]
fn ops() {
    let mut bits = RawVec::<Entry<u64>>::new();

    assert!(!bits.insert(1000));
    assert!(!bits.insert(2000));
    assert!(!bits.insert(300000));
    assert!(bits.access(1000));
    assert!(bits.access(2000));
    assert!(bits.access(300000));

    assert_eq!(bits.count1(), 3);
    assert_eq!(bits.rank1(2000), 1);
    assert_eq!(bits.rank1(300000), 2);

    assert_eq!(bits.rank1(bits.size()), bits.count1());

    assert_eq!(bits.select1(0), 1000);
    assert_eq!(bits.select1(1), 2000);
    assert_eq!(bits.select1(2), 300000);
    assert_eq!(bits.select0(0), 0);
    assert_eq!(bits.select0(1), 1);
    assert_eq!(bits.select0(2), 2);

    assert!(bits.remove(1000));
    assert!(bits.remove(2000));
    assert!(!bits.access(1000));
    assert!(!bits.access(2000));
    assert!(bits.access(300000));
}

#[test]
fn words_changed_in_place() {
    let mut w = BoxWords::<u64>::splat(0);
    if let Some(v) = w.as_mut() {
        v[1] = 0b100;
    }
    assert!(w.access(66));
    assert_eq!(w.count1(), 1);
    let mut e = BoxWords::<u64>::empty();
    assert!(e.as_mut().is_none());
}

#[test]
fn casts_between_words() {
    assert_eq!(CastTo::<u8>::cast_to(300u16), None);
    assert_eq!(CastTo::<u8>::cast_to(200u16), Some(200u8));
    assert_eq!(CastTo::<u32>::cast_to(1u64 << 32), None);
    assert_eq!(CastTo::<u64>::cast_to(u64::MAX), Some(u64::MAX));
    assert_eq!(CastTo::<u64>::cast_to(9u8), Some(9u64));
    assert_eq!(CastAs::<u64>::cast_as(7u8), 7u64);
    assert_eq!(CastAs::<u32>::cast_as(65535u16), 65535u32);
    assert_eq!(cast::<u64, u8>(255), 255u8);
    assert_eq!(cast::<u8, u64>(7), 7u64);
    assert_eq!(cast::<u64, usize>(1 << 40), 1usize << 40);
    assert_eq!(CastTo::<usize>::cast_to(u64::MAX), Some(usize::MAX));
}

#[test]
fn insert_and_remove_count() {
    let mut bv = BitSet::<u64>::new();
    assert!(!bv.insert(1));
    assert_eq!(bv.count1(), 1);
    assert!(bv.insert(1));
    assert_eq!(bv.count1(), 1);
    assert!(bv.remove(1));
    assert_eq!(bv.count1(), 0);
    assert!(!bv.remove(1));
    assert_eq!(bv.count1(), 0);
}

#[test]
fn complement_and_splat_counts() {
    let w = BoxWords::<u16>::splat(0b101);
    assert_eq!(w.count1(), 4096 * 2);
    let n = w.not();
    assert_eq!(n.count1(), 65536 - 4096 * 2);
    let e = BoxWords::<u8>::empty().not();
    assert_eq!(e.len(), 8192);
    assert_eq!(e.count1(), 65536);
    assert!(BoxWords::<u32>::splat(!0).not().is_empty());
}
