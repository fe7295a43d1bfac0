use kernel::bits::{
    ternary_logic_u128, ternary_logic_u16, ternary_logic_u32, ternary_logic_u64, ternary_logic_u8,
};

fn table(x: u64, y: u64, z: u64, s: u8) -> u64 {
    let mut r = 0u64;
    for i in 0..64 {
        let k = 4 * ((x >> i) & 1) + 2 * ((y >> i) & 1) + ((z >> i) & 1);
        r |= (((s as u64) >> k) & 1) << i;
    }
    r
}

#[test]
fn ternary_named_tables() {
    let (x, y, z) = (0b1111_0000u8, 0b1100_1100u8, 0b1010_1010u8);
    assert_eq!(ternary_logic_u8(x, y, z, 0xF0), x);
    assert_eq!(ternary_logic_u8(x, y, z, 0xCC), y);
    assert_eq!(ternary_logic_u8(x, y, z, 0xAA), z);
    assert_eq!(ternary_logic_u8(x, y, z, 0x80), x & y & z);
    assert_eq!(ternary_logic_u8(x, y, z, 0xFE), x | y | z);
    assert_eq!(ternary_logic_u8(x, y, z, 0x96), x ^ y ^ z);
    assert_eq!(ternary_logic_u8(x, y, z, 0x00), 0);
    assert_eq!(ternary_logic_u8(x, y, z, 0xFF), 0xFF);
}

#[test]
fn ternary_on_the_canonical_words_gives_the_table() {
    // x, y, z laid out so that bit k holds row k of the table
    for s in 0..=255u8 {
        assert_eq!(ternary_logic_u8(0xF0, 0xCC, 0xAA, s), s);
    }
}

#[test]
fn ternary_matches_the_truth_table_on_every_width() {
    let (x, y, z) = (0x0123_4567_89ab_cdefu64, 0xfedc_ba98_7654_3210u64, 0x0f0f_3c3c_5a5a_ff00u64);
    for s in [0u8, 1, 2, 6, 0x17, 0x69, 0x96, 0xCA, 0xE8, 0xFE, 0xFF] {
        let want = table(x, y, z, s);
        assert_eq!(ternary_logic_u64(x, y, z, s), want);
        assert_eq!(ternary_logic_u32(x as u32, y as u32, z as u32, s), want as u32);
        assert_eq!(ternary_logic_u16(x as u16, y as u16, z as u16, s), want as u16);
        let wide = ternary_logic_u128((x as u128) << 64 | x as u128, (y as u128) << 64 | y as u128,
            (z as u128) << 64 | z as u128, s);
        assert_eq!(wide, (want as u128) << 64 | want as u128);
    }
}
