use compacts::rrr::{comb_table, gen_comb_table, rrr04, rrr15, rrr31, rrr63};

fn check04(mut bits: u8, class: u8, offset: u8) {
    bits &= (1 << 4) - 1;
    let (c, o) = rrr04::encode(bits);
    assert_eq!(c, class, "class does not match");
    assert_eq!(o, offset, "offset does not match");
    let decoded = rrr04::decode(c, o);
    assert_eq!(bits, decoded, "decoded does not match");
}

fn check15(mut bits: u16, class: u8, offset: u16) {
    bits &= (1 << 15) - 1;
    let (c, o) = rrr15::encode(bits);
    assert_eq!(c, class, "class does not match");
    assert_eq!(o, offset, "offset does not match");
    let decoded = rrr15::decode(c, o);
    assert_eq!(bits, decoded, "decoded does not match");
}

#[test]
fn rrr04_class_values() {
    assert_eq!(rrr04::CLASS_SIZE, 3);
}

#[test]
fn rrr04_class_0() {
    check04(0b_0000, 0, 0);
}

#[test]
fn rrr04_class_1() {
    check04(0b_0001, 1, 0);
    check04(0b_0010, 1, 1);
    check04(0b_0100, 1, 2);
    check04(0b_1000, 1, 3);
}

#[test]
fn rrr04_class_2() {
    check04(0b_0011, 2, 0);
    check04(0b_0101, 2, 1);
    check04(0b_0110, 2, 2);
    check04(0b_1001, 2, 3);
    check04(0b_1010, 2, 4);
    check04(0b_1100, 2, 5);
}

#[test]
fn class_3() {
    check04(0b_0111, 3, 0);
    check04(0b_1011, 3, 1);
    check04(0b_1101, 3, 2);
    check04(0b_1110, 3, 3);
}

#[test]
fn class_4() {
    check04(0b_1111, 4, 0);
}

#[test]
fn rrr15_class_values() {
    assert_eq!(rrr15::CLASS_SIZE, 4);
}

#[test]
fn rrr15_class_0() {
    check15(0b_0000_0000_0000_0000, 0, 0);
    check15(0b_1000_0000_0000_0000, 0, 0);
}

#[test]
fn rrr15_class_1() {
    check15(0b_0000_0000_0000_0001, 1, 0);
    check15(0b_0000_0000_0000_0010, 1, 1);
    check15(0b_0100_0000_0000_0000, 1, 14);
}

#[test]
fn rrr15_class_2() {
    check15(0b_0000_0000_0000_0011, 2, 0);
    check15(0b_0110_0000_0000_0000, 2, 104); // comb(15, 2) is 105
}

#[test]
fn class_15() {
    check15(0b_0111_1111_1111_1111, 15, 0);
    check15(0b_1111_1111_1111_1111, 15, 0);
}

#[test]
fn rrr31_class_values() {
    assert_eq!(rrr31::CLASS_SIZE, 5);
}

#[test]
fn rrr63_class_values() {
    assert_eq!(rrr63::CLASS_SIZE, 6);
}

#[test]
fn rrr_class_values() {
    assert_eq!(rrr15::CLASS_SIZE, 4);
    assert_eq!(rrr31::CLASS_SIZE, 5);
    assert_eq!(rrr63::CLASS_SIZE, 6);
}

#[test]
fn rrr15_encode_decode() {
    check15(0b_0000_0000_0000_0000, 0, 0);
    check15(0b_1000_0000_0000_0000, 0, 0);

    check15(0b_0000_0000_0000_0001, 1, 0);
    check15(0b_0000_0000_0000_0010, 1, 1);
    check15(0b_0100_0000_0000_0000, 1, 14);

    check15(0b_0000_0000_0000_0011, 2, 0);

    check15(0b_0111_1111_1111_1111, 15, 0);
}

#[test]
fn rrr04_round_trip_all_blocks() {
    for b in 0u8..=255 {
        let (c, o) = rrr04::encode(b);
        assert_eq!(rrr04::decode(c, o), b & 0b1111);
    }
}

#[test]
fn rrr15_round_trip_all_blocks() {
    for b in 0u16..(1 << 15) {
        let (c, o) = rrr15::encode(b);
        assert_eq!(c as u32, b.count_ones());
        assert_eq!(rrr15::decode(c, o), b);
    }
}

#[test]
fn rrr31_and_rrr63_round_trip_samples() {
    for &b in &[0u32, 1, 0x7fff_ffff, 0x1234_5678, 0xdead_beef, 0x5555_5555] {
        let (c, o) = rrr31::encode(b);
        assert_eq!(rrr31::decode(c, o), b & 0x7fff_ffff);
    }
    for &b in &[0u64, 1, u64::MAX, 0x0123_4567_89ab_cdef, 0x5555_5555_5555_5555] {
        let (c, o) = rrr63::encode(b);
        assert_eq!(rrr63::decode(c, o), b & 0x7fff_ffff_ffff_ffff);
    }
}

#[test]
fn rrr63_largest_offset() {
    // 31 ones in the top positions of a 63-bit block: the last pattern of its class.
    let b: u64 = ((1u64 << 31) - 1) << 32;
    let (c, o) = rrr63::encode(b);
    assert_eq!(c, 31);
    let table = comb_table(64);
    assert_eq!(o, table[63][31] - 1);
    assert_eq!(rrr63::decode(c, o), b);
}

#[test]
fn comb_table_values() {
    let t = comb_table(16);
    assert_eq!(t.len(), 16);
    assert_eq!(t[0], {
        let mut r = vec![0u64; 16];
        r[0] = 1;
        r
    });
    assert_eq!(t[4][2], 6);
    assert_eq!(t[15][7], 6435);
    assert_eq!(t[3][5], 0);
    let g = gen_comb_table(63);
    assert_eq!(g.len(), 64);
    assert_eq!(g[63][31], 916_312_070_471_295_267);
    assert_eq!(g[63][63], 1);
}

fn rrr4_check(mut bits: u8, class: u8, offset: u8) {
    bits &= (1 << 4) - 1;
    let (c, o) = rrr04::encode(bits);
    assert_eq!(c, class);
    assert_eq!(o, offset);
    let decoded = rrr04::decode(c, o);
    assert_eq!(bits, decoded);
}

#[test]
fn rrr4_encode_decode() {
    rrr4_check(0b_0000, 0, 0);

    rrr4_check(0b_0001, 1, 0);
    rrr4_check(0b_0010, 1, 1);
    rrr4_check(0b_0100, 1, 2);
    rrr4_check(0b_1000, 1, 3);

    rrr4_check(0b_0011, 2, 0);
    rrr4_check(0b_0101, 2, 1);
    rrr4_check(0b_0110, 2, 2);
    rrr4_check(0b_1001, 2, 3);
    rrr4_check(0b_1010, 2, 4);
    rrr4_check(0b_1100, 2, 5);
}

#[test]
fn largest_comb_table() {
    let t = comb_table(68);
    assert_eq!(t.len(), 68);
    assert_eq!(t[67][33], 14226520737620288370);
    assert_eq!(t[67][34], 14226520737620288370);
    assert_eq!(t[67][67], 1);
    assert_eq!(t[66][67], 0);
    let g = gen_comb_table(67);
    assert_eq!(g, t);
}
