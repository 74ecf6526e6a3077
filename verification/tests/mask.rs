use compacts::bit_set::mask::Fold;
use compacts::bit_set::{iterate, BitSet};

#[test]
fn set_operations_on_bit_sets() {
    let a = BitSet::<u64>::from_vec(vec![1, 70000, 1 << 40]);
    let b = BitSet::<u64>::from_vec(vec![1, 2, 1 << 40, 1 << 50]);
    assert_eq!(iterate(&a.and(&b)), vec![1, 1 << 40]);
    assert_eq!(iterate(&a.or(&b)), vec![1, 2, 70000, 1 << 40, 1 << 50]);
    assert_eq!(iterate(&a.xor(&b)), vec![2, 70000, 1 << 50]);
    // The intersection keeps the blocks that both sets hold.
    assert_eq!(a.and(&b).iter().map(|e| e.index).collect::<Vec<_>>(), vec![0, 1 << 24]);
}

#[test]
fn iterate_lists_the_positions_in_order() {
    let bits = vec![0, 1 << 30, 1 << 40, 1 << 50, 1 << 51];
    let bv = BitSet::<u64>::from_slice(&bits[..]);
    let all = iterate(&bv.entries());
    assert_eq!(all, bits);
    assert_eq!(all.len() as u64, bv.count1());
    let bv = BitSet::<u8>::from_vec(vec![9, 3, 3, 65536 * 3 + 7]);
    assert_eq!(iterate(&bv.0.bits), vec![3, 9, 65536 * 3 + 7]);
}

#[test]
fn folds_of_many_sets() {
    let a = BitSet::<u32>::from_vec(vec![1, 5, 100000]);
    let b = BitSet::<u32>::from_vec(vec![5, 100000, 200000]);
    let c = BitSet::<u32>::from_vec(vec![5, 7]);
    let sets = vec![a.0.bits.clone(), b.0.bits.clone(), c.0.bits.clone()];
    assert_eq!(iterate(&Fold::and(&sets).0), vec![5]);
    assert_eq!(iterate(&Fold::or(&sets).0), vec![1, 5, 7, 100000, 200000]);
    assert_eq!(iterate(&Fold::xor(&sets).0), vec![1, 5, 7, 200000]);
    let index = |f: Fold<u32>| f.0.iter().map(|e| e.index).collect::<Vec<_>>();
    assert_eq!(index(Fold::and(&sets)), vec![0]);
    assert_eq!(index(Fold::or(&sets)), vec![0, 1, 3]);
    // A block present in some set stays, even when its bits cancel out.
    assert_eq!(index(Fold::xor(&sets)), vec![0, 1, 3]);
    assert_eq!(iterate(&Fold::<u32>::and(&vec![]).0), Vec::<u64>::new());
}

#[test]
fn entries_collect_back_into_a_set() {
    let a = BitSet::<u64>::from_vec(vec![1, 70000, 1 << 40]);
    let b = BitSet::<u64>::from_vec(vec![1, 2, 1 << 40, 1 << 50]);
    let entries = a.entries();
    assert_eq!(entries.iter().map(|e| e.index).collect::<Vec<_>>(), vec![0, 1, 1 << 24]);
    let again = BitSet::from_entries(&entries);
    assert_eq!(again, a);

    let common = BitSet::from_entries(&a.and(&b));
    assert_eq!(common.count1(), 2);
    assert!(common.access(1) && common.access(1 << 40));
    assert!(!common.access(70000));

    // A block that is present but holds no set bit is left out.
    let xor = BitSet::from_entries(&a.xor(&a));
    assert_eq!(xor.count1(), 0);
    assert!(xor.entries().is_empty());
}
