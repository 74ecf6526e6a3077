use compacts::bits::blocks::{and, not, or, xor};
use compacts::bits::{Bits, BitsMut, Block};

#[test]
fn intersection() {
    let a: Vec<u64> = vec![0b00000101, 0b01100011, 0b01100000];
    let b: Vec<u64> = vec![0b00000100, 0b10000000, 0b01000000];
    let mut iter = and(&a, &b).into_iter();
    assert_eq!(iter.next().unwrap(), (0, 0b00000100));
    assert_eq!(iter.next().unwrap(), (2, 0b01000000));
    assert_eq!(iter.next(), None);
}

#[test]
fn union() {
    let a: Vec<u64> = vec![0b00000101, 0b01100011, 0b01100000];
    let b: Vec<u64> = vec![0b00000100, 0b10000000, 0b01000000];
    let mut iter = or(&a, &b).into_iter();
    assert_eq!(iter.next().unwrap(), (0, 0b00000101));
    assert_eq!(iter.next().unwrap(), (1, 0b11100011));
    assert_eq!(iter.next().unwrap(), (2, 0b01100000));
    assert_eq!(iter.next(), None);
}

#[test]
fn difference() {
    let a: Vec<u64> = vec![0b00000101, 0b01100011, 0b01100000];
    let b: Vec<u64> = vec![0b00000100, 0b10000000, 0b01000000];
    let mut iter = not(&a, &b).into_iter();
    assert_eq!(iter.next().unwrap(), (0, 0b00000001));
    assert_eq!(iter.next().unwrap(), (1, 0b01100011));
    assert_eq!(iter.next().unwrap(), (2, 0b00100000));
    assert_eq!(iter.next(), None);
}

#[test]
fn symmetric_difference() {
    let a: Vec<u64> = vec![0b00000101, 0b01100011, 0b01100000];
    let b: Vec<u64> = vec![0b00000100, 0b10000000, 0b01000000];
    let mut iter = xor(&a, &b).into_iter();
    assert_eq!(iter.next().unwrap(), (0, 0b00000001));
    assert_eq!(iter.next().unwrap(), (1, 0b11100011));
    assert_eq!(iter.next().unwrap(), (2, 0b00100000));
    assert_eq!(iter.next(), None);
}

#[test]
fn blocks_of_unequal_lengths() {
    let a: Vec<u64> = vec![0b1, 0, 0b110];
    let b: Vec<u64> = vec![0b1];
    assert_eq!(and(&a, &b), vec![(0, 0b1)]);
    assert_eq!(or(&a, &b), vec![(0, 0b1), (2, 0b110)]);
    assert_eq!(not(&a, &b), vec![(2, 0b110)]);
    // Equal blocks on both sides still show up in the symmetric difference.
    assert_eq!(xor(&a, &b), vec![(0, 0), (2, 0b110)]);
}

#[test]
fn bits_of_word_vectors() {
    let v: Vec<u64> = vec![0b00000101, 0b01100011, 0b01100000];
    assert!(v.bit(0));
    assert!(v.bit(64));
    assert!(!v.bit(128));
    assert!(!v.bit(200));
    assert_eq!(v.bits(), 192);
    assert_eq!(v.count1(), 8);
    assert_eq!(v.count0(), 184);
    assert_eq!(v.rank1(0, 192), 8);
    assert_eq!(v.rank1(1, 192), 7);
    assert_eq!(v.rank1(0, 2), 1);
    assert_eq!(v.rank1(60, 70), 3);
    assert_eq!(v.rank0(0, 5), 3);
    assert_eq!(v.rank0(60, 70), 7);
    assert_eq!(v.select1(0), Some(0));
    assert_eq!(v.select1(1), Some(2));
    assert_eq!(v.select1(2), Some(64));
    assert_eq!(v.select1(3), Some(65));
    assert_eq!(v.select1(8), None);
    assert_eq!(v.select0(0), Some(1));
    assert_eq!(v.select0(1), Some(3));
    assert_eq!(v.select0(v.count0() - 1), Some(191));
    assert_eq!(v.search1(3), Some(65));
    assert_eq!(v.search0(1), Some(3));
    assert_eq!(v.excess(0, 192), 176);
    assert_eq!(v.excess1(0, 5), None);
    assert_eq!(v.excess1(0, 4), Some(0));
    assert_eq!(v.excess0(0, 5), Some(1));
}

#[test]
fn all_and_any() {
    let a: Vec<u64> = vec![];
    let b: Vec<u64> = vec![0, 0, 0];
    let c: Vec<u64> = vec![!0, !0, !0];
    assert!(a.all());
    assert!(!b.all());
    assert!(c.all());
    assert!(!a.any());
    assert!(!b.any());
    assert!(c.any());
    let d: Vec<u8> = vec![0, 1, 3];
    assert_eq!(d.bits(), 24);
    assert_eq!(d.count1(), 3);
}

#[test]
fn set_and_clear_bits() {
    let mut v: Vec<u16> = vec![0, 0];
    v.set1(17);
    assert!(v.bit(17));
    assert_eq!(v, vec![0, 0b10]);
    v.set0(17);
    assert_eq!(v, vec![0, 0]);
}

#[test]
fn words_of_bits() {
    let v: Vec<u16> = vec![0b_1101_0001_1010_0011, 0b_1001_1110_1110_1001];
    assert_eq!(v.word::<u8>(0, 4), 0b0011);
    assert_eq!(v.word::<u8>(8, 4), 0b0001);
    assert_eq!(v.word::<u8>(14, 4), 0b0111);
    assert_eq!(v.word::<u8>(30, 4), 0b0010);
    // Bits past the end read as unset.
    assert_eq!(v.word::<u16>(24, 16), 0b1001_1110);
    // A word that spans three blocks.
    let w: Vec<u8> = vec![0xf0, 0xff, 0x0f];
    assert_eq!(w.word::<u32>(4, 16), 0xffff);
    assert_eq!(w.word::<u32>(4, 20), 0xffff);
    assert_eq!(w.word::<u32>(2, 10), 0b11_1111_1100);
    assert_eq!(w.word::<u64>(0, 24), 0x0f_fff0);
}

#[test]
fn bits_of_word_slices() {
    let v: &[u64] = &[0b00000101, 0b01100011, 0b01100000];
    assert!(v.bit(0));
    assert!(v.bit(64));
    assert!(!v.bit(128));
    assert!(!v.bit(200));
    assert_eq!(v.rank1(0, v.bits()), v.count1());
    assert_eq!(v.rank1(0, v.bits()), 8);
    assert_eq!(v.rank1(60, 70), 3);
    assert_eq!(v.rank0(60, 70), 7);
    assert_eq!(v.select1(3), Some(65));
    assert_eq!(v.select0(v.count0() - 1), Some(191));
    let e: &[u64] = &[];
    assert_eq!(e.rank1(0, 0), 0);
    assert!(e.all() && !e.any());
    let u: &[u16] = &[0b_1101_0001_1010_0011, 0b_1001_1110_1110_1001];
    assert_eq!(u.word::<u8>(30, 4), 0b0010);
}

#[test]
fn blocks_of_fixed_size() {
    let mut b = <[u64; 4] as Block>::empty();
    assert_eq!(b, [0u64; 4]);
    assert_eq!(<[u64; 4] as Block>::block_bits(), 256);
    assert_eq!(<[u16; 3] as Block>::block_bits(), 48);
    assert_eq!(b.bits(), 256);
    assert!(!b.any());
    b.set1(3);
    b.set1(70);
    b.set1(255);
    assert_eq!(b.count1(), 3);
    assert_eq!(b.rank1(0, 71), 2);
    assert_eq!(b.select1(2), Some(255));
    assert_eq!(b.select0(3), Some(4));
    b.set0(70);
    assert_eq!(b, [8, 0, 0, 1 << 63]);
    let a: [u16; 2] = [0b_1101_0001_1010_0011, 0b_1001_1110_1110_1001];
    assert_eq!(a.word::<u8>(14, 4), 0b0111);
    assert_eq!(a.word::<u16>(24, 16), 0b1001_1110);
}
