use compacts::bit_set::raw_vec::RawVec;
use compacts::bit_set::words::{BoxWords, Words};
use compacts::bit_set::{iterate, BitSet, Entry};
use compacts::word::Word;

fn pages_ops<T: Word>() {
    let mut bits: RawVec<Words<T>> = Default::default();

    assert!(!bits.insert(1000));
    assert!(!bits.insert(2000));
    assert!(!bits.insert(300000));
    assert!(bits.access(1000));
    assert!(bits.access(2000));
    assert!(bits.access(300000));

    assert_eq!(bits.count1(), 3);
    assert_eq!(bits.rank1(2000), 1);
    assert_eq!(bits.rank1(300000), 2);

    assert_eq!(bits.rank1(bits.size()), bits.count1());

    assert_eq!(bits.select1(0), 1000);
    assert_eq!(bits.select1(1), 2000);
    assert_eq!(bits.select1(2), 300000);
    assert_eq!(bits.select0(0), 0);
    assert_eq!(bits.select0(1), 1);
    assert_eq!(bits.select0(2), 2);

    assert!(bits.remove(1000));
    assert!(bits.remove(2000));
    assert!(!bits.access(1000));
    assert!(!bits.access(2000));
    assert!(bits.access(300000));
    // Blocks stay where they are: 300000 lies in block 4.
    assert_eq!(bits.bits.len(), 5);
    assert!(bits.bits[1].as_ref().is_none());
}

#[test]
fn pages_ops_for_each_word() {
    pages_ops::<u8>();
    pages_ops::<u16>();
    pages_ops::<u32>();
    pages_ops::<u64>();
    pages_ops::<usize>();
}

fn dense_ops<T: Word>() {
    let mut bits: RawVec<T> = Default::default();

    assert!(!bits.insert(1000));
    assert!(!bits.insert(2000));
    assert!(!bits.insert(300000));
    assert!(bits.insert(2000));
    assert!(bits.access(1000));
    assert!(bits.access(2000));
    assert!(bits.access(300000));
    assert!(!bits.access(300001));
    assert!(!bits.access(1 << 40));

    assert_eq!(bits.count1(), 3);
    assert_eq!(bits.count0(), (1 << 63) - 3);
    assert_eq!(bits.rank1(2000), 1);
    assert_eq!(bits.rank1(300000), 2);
    assert_eq!(bits.rank1(bits.size()), bits.count1());
    assert_eq!(bits.rank0(2000), 1999);

    assert_eq!(bits.select1(0), 1000);
    assert_eq!(bits.select1(1), 2000);
    assert_eq!(bits.select1(2), 300000);
    assert_eq!(bits.select0(0), 0);
    assert_eq!(bits.select0(1000), 1001);
    // Past the last word every bit is unset.
    assert_eq!(bits.select0(1 << 40), (1 << 40) + 3);

    assert!(bits.remove(1000));
    assert!(!bits.remove(1000));
    assert!(!bits.remove(1 << 50));
    assert_eq!(bits.count1(), 2);
    assert_eq!(bits.bits.len() as u64, 300000 / T::bits() + 1);
}

#[test]
fn dense_ops_for_each_word() {
    dense_ops::<u8>();
    dense_ops::<u16>();
    dense_ops::<u32>();
    dense_ops::<u64>();
    dense_ops::<usize>();
}

#[test]
fn pages_entries_and_collect() {
    let mut a: RawVec<Words<u64>> = RawVec::<Words<u64>>::new();
    let mut b: RawVec<Words<u64>> = RawVec::<Words<u64>>::new();
    for &i in &[1u64, 70000, 1 << 20] {
        a.insert(i);
    }
    for &i in &[1u64, 2, 1 << 20, 1 << 22] {
        b.insert(i);
    }
    // Only the present blocks give entries.
    let es = a.entries();
    assert_eq!(es.iter().map(|e| e.index).collect::<Vec<_>>(), vec![0, 1, 16]);
    assert_eq!(iterate(&es), vec![1, 70000, 1 << 20]);

    assert_eq!(iterate(&a.and(&b)), vec![1, 1 << 20]);
    assert_eq!(iterate(&a.or(&b)), vec![1, 2, 70000, 1 << 20, 1 << 22]);
    assert_eq!(iterate(&a.xor(&b)), vec![2, 70000, 1 << 22]);

    // Collecting entries puts each block at its index.
    let again = RawVec::<Words<u64>>::from_entries(&es);
    assert_eq!(again, a);
    let sparse = BitSet::<u64>::from_vec(vec![5, 1 << 30]);
    let dense = RawVec::<Words<u64>>::from_entries(&sparse.entries());
    assert_eq!(dense.bits.len(), (1 << 14) + 1);
    assert!(dense.access(5) && dense.access(1 << 30));
    assert_eq!(dense.count1(), 2);
    let back = RawVec::<Entry<u64>>::from_entries(&dense.entries());
    assert_eq!(back, sparse.0);

    // A present block with no set bit still gives an entry.
    let mut c: RawVec<Words<u64>> = RawVec::<Words<u64>>::new();
    c.insert(3);
    c.remove(3);
    assert_eq!(c.entries().len(), 1);
    let w: BoxWords<u64> = c.entries()[0].block.clone();
    assert_eq!(w.count1(), 0);
}

#[test]
fn raw_vecs_from_positions() {
    let bits = vec![1u64, 1000, 1000000];
    let pages = RawVec::<Words<u16>>::from_slice(&bits[..]);
    let dense = RawVec::<u32>::from_vec(bits.clone());
    let sparse = RawVec::<Entry<u8>>::from_vec(bits.clone());
    for &b in &bits {
        assert!(pages.access(b) && dense.access(b) && sparse.access(b));
    }
    assert_eq!(pages.count1(), 3);
    assert_eq!(dense.count1(), 3);
    assert_eq!(sparse.count1(), 3);
    assert_eq!(pages.rank1(1000000), 2);
    assert_eq!(dense.rank1(1000000), 2);
    assert_eq!(sparse.rank1(1000000), 2);
    assert_eq!(pages.bits.len(), 1000000 / 65536 + 1);
    assert_eq!(dense.bits.len(), 1000000 / 32 + 1);
    assert_eq!(sparse.bits.len(), 2);
}
