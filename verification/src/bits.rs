//! Ternary bitwise logic: any of the 256 bitwise functions of three words, named by
//! the byte of its truth table.
use vstd::prelude::*;

verus! {

/// Bit `i` of `v`.
pub open spec fn bit128(v: u128, i: u128) -> bool {
    (v >> i) & 1u128 == 1u128
}

/// The entry of the truth table `s` for the bits `xb`, `yb`, `zb`: bit
/// `4·x + 2·y + z` of `s`.
pub open spec fn table_bit(s: u8, xb: bool, yb: bool, zb: bool) -> bool {
    let k: u8 = if xb {
        if yb { if zb { 7u8 } else { 6u8 } } else { if zb { 5u8 } else { 4u8 } }
    } else {
        if yb { if zb { 3u8 } else { 2u8 } } else { if zb { 1u8 } else { 0u8 } }
    };
    (s >> k) & 1u8 == 1u8
}

/// All ones when bit `k` of `s` is set, else all zeros.
pub open spec fn row_mask(s: u8, k: u8) -> u128 {
    if (s >> k) & 1u8 == 1u8 { !0u128 } else { 0u128 }
}

/// The word whose every bit is the truth-table entry of the bits of `x`, `y`, `z`:
/// the union of the minterms that `s` selects.
pub open spec fn ternary_word(x: u128, y: u128, z: u128, s: u8) -> u128 {
    (!x & !y & !z & row_mask(s, 0))
    | (!x & !y & z & row_mask(s, 1))
    | (!x & y & !z & row_mask(s, 2))
    | (!x & y & z & row_mask(s, 3))
    | (x & !y & !z & row_mask(s, 4))
    | (x & !y & z & row_mask(s, 5))
    | (x & y & !z & row_mask(s, 6))
    | (x & y & z & row_mask(s, 7))
}

/// Every bit of the union of minterms is the truth-table entry of its bits.
pub proof fn lemma_ternary_word_bits(x: u128, y: u128, z: u128, s: u8)
    ensures
        forall|i: u128| i < 128 ==> #[trigger] bit128(ternary_word(x, y, z, s), i)
            == table_bit(s, bit128(x, i), bit128(y, i), bit128(z, i)),
{
    assert forall|i: u128| i < 128 implies #[trigger] bit128(ternary_word(x, y, z, s), i)
        == table_bit(s, bit128(x, i), bit128(y, i), bit128(z, i)) by {
        assert(((((!x & !y & !z & row_mask(s, 0))
            | (!x & !y & z & row_mask(s, 1))
            | (!x & y & !z & row_mask(s, 2))
            | (!x & y & z & row_mask(s, 3))
            | (x & !y & !z & row_mask(s, 4))
            | (x & !y & z & row_mask(s, 5))
            | (x & y & !z & row_mask(s, 6))
            | (x & y & z & row_mask(s, 7))) >> i) & 1u128 == 1u128)
            == table_bit(s, (x >> i) & 1u128 == 1u128, (y >> i) & 1u128 == 1u128, (z >> i) & 1u128 == 1u128))
            by (bit_vector)
            requires
                i < 128,
        ;
    }
}

/// The mask of row `k` of the table `s`.
fn row_mask_of(s: u8, k: u8) -> (m: u128)
    requires
        k < 8,
    ensures
        m == row_mask(s, k),
{
    if (s >> k) & 1 == 1 { !0u128 } else { 0u128 }
}

/// `(u128_ternarylogic x y z s)`: the bitwise function of three words whose truth
/// table is `s`.
pub fn ternary_logic_u128(x: u128, y: u128, z: u128, s: u8) -> (r: u128)
    ensures
        r == ternary_word(x, y, z, s),
        forall|i: u128| i < 128 ==> #[trigger] bit128(r, i)
            == table_bit(s, bit128(x, i), bit128(y, i), bit128(z, i)),
{
    let r = (!x & !y & !z & row_mask_of(s, 0))
        | (!x & !y & z & row_mask_of(s, 1))
        | (!x & y & !z & row_mask_of(s, 2))
        | (!x & y & z & row_mask_of(s, 3))
        | (x & !y & !z & row_mask_of(s, 4))
        | (x & !y & z & row_mask_of(s, 5))
        | (x & y & !z & row_mask_of(s, 6))
        | (x & y & z & row_mask_of(s, 7));
    proof { lemma_ternary_word_bits(x, y, z, s); }
    r
}

/// `(u64_ternarylogic x y z s)`: the bitwise function of three words whose truth
/// table is `s`, on 64-bit words.
pub fn ternary_logic_u64(x: u64, y: u64, z: u64, s: u8) -> (r: u64)
    ensures
        r == ternary_word(x as u128, y as u128, z as u128, s) as u64,
        forall|i: u128| i < 64 ==> #[trigger] bit128(r as u128, i)
            == table_bit(s, bit128(x as u128, i), bit128(y as u128, i), bit128(z as u128, i)),
{
    let w = ternary_logic_u128(x as u128, y as u128, z as u128, s);
    let r = w as u64;
    assert forall|i: u128| i < 64 implies #[trigger] bit128(r as u128, i) == bit128(w, i) by {
        assert(((r as u128 >> i) & 1u128 == 1u128) == ((w >> i) & 1u128 == 1u128)) by (bit_vector)
            requires
                r == w as u64,
                i < 64,
        ;
    }
    r
}

/// `(u32_ternarylogic x y z s)`: the bitwise function of three words whose truth
/// table is `s`, on 32-bit words.
pub fn ternary_logic_u32(x: u32, y: u32, z: u32, s: u8) -> (r: u32)
    ensures
        r == ternary_word(x as u128, y as u128, z as u128, s) as u32,
        forall|i: u128| i < 32 ==> #[trigger] bit128(r as u128, i)
            == table_bit(s, bit128(x as u128, i), bit128(y as u128, i), bit128(z as u128, i)),
{
    let w = ternary_logic_u128(x as u128, y as u128, z as u128, s);
    let r = w as u32;
    assert forall|i: u128| i < 32 implies #[trigger] bit128(r as u128, i) == bit128(w, i) by {
        assert(((r as u128 >> i) & 1u128 == 1u128) == ((w >> i) & 1u128 == 1u128)) by (bit_vector)
            requires
                r == w as u32,
                i < 32,
        ;
    }
    r
}

/// `(u16_ternarylogic x y z s)`: the bitwise function of three words whose truth
/// table is `s`, on 16-bit words.
pub fn ternary_logic_u16(x: u16, y: u16, z: u16, s: u8) -> (r: u16)
    ensures
        r == ternary_word(x as u128, y as u128, z as u128, s) as u16,
        forall|i: u128| i < 16 ==> #[trigger] bit128(r as u128, i)
            == table_bit(s, bit128(x as u128, i), bit128(y as u128, i), bit128(z as u128, i)),
{
    let w = ternary_logic_u128(x as u128, y as u128, z as u128, s);
    let r = w as u16;
    assert forall|i: u128| i < 16 implies #[trigger] bit128(r as u128, i) == bit128(w, i) by {
        assert(((r as u128 >> i) & 1u128 == 1u128) == ((w >> i) & 1u128 == 1u128)) by (bit_vector)
            requires
                r == w as u16,
                i < 16,
        ;
    }
    r
}

/// `(u8_ternarylogic x y z s)`: the bitwise function of three words whose truth
/// table is `s`, on 8-bit words.
pub fn ternary_logic_u8(x: u8, y: u8, z: u8, s: u8) -> (r: u8)
    ensures
        r == ternary_word(x as u128, y as u128, z as u128, s) as u8,
        forall|i: u128| i < 8 ==> #[trigger] bit128(r as u128, i)
            == table_bit(s, bit128(x as u128, i), bit128(y as u128, i), bit128(z as u128, i)),
{
    let w = ternary_logic_u128(x as u128, y as u128, z as u128, s);
    let r = w as u8;
    assert forall|i: u128| i < 8 implies #[trigger] bit128(r as u128, i) == bit128(w, i) by {
        assert(((r as u128 >> i) & 1u128 == 1u128) == ((w >> i) & 1u128 == 1u128)) by (bit_vector)
            requires
                r == w as u8,
                i < 8,
        ;
    }
    r
}

/// The tables of the familiar functions: `0xF0`, `0xCC` and `0xAA` pick `x`, `y`
/// and `z`; `0x80` is their conjunction, `0xFE` their disjunction, `0x96` their
/// parity, `0xE8` their majority, `0xCA` chooses `y` where `x` is set and `z`
/// elsewhere; `0x00` and `0xFF` are the constants.
pub proof fn law_ternary_named_tables(x: u128, y: u128, z: u128)
    ensures
        ternary_word(x, y, z, 0xF0) == x,
        ternary_word(x, y, z, 0xCC) == y,
        ternary_word(x, y, z, 0xAA) == z,
        ternary_word(x, y, z, 0x80) == x & y & z,
        ternary_word(x, y, z, 0xFE) == x | y | z,
        ternary_word(x, y, z, 0x96) == x ^ y ^ z,
        ternary_word(x, y, z, 0xE8) == (x & y) | (y & z) | (x & z),
        ternary_word(x, y, z, 0xCA) == (x & y) | (!x & z),
        ternary_word(x, y, z, 0x00) == 0,
        ternary_word(x, y, z, 0xFF) == !0u128,
{
    assert(ternary_word(x, y, z, 0xF0) == x) by (bit_vector);
    assert(ternary_word(x, y, z, 0xCC) == y) by (bit_vector);
    assert(ternary_word(x, y, z, 0xAA) == z) by (bit_vector);
    assert(ternary_word(x, y, z, 0x80) == x & y & z) by (bit_vector);
    assert(ternary_word(x, y, z, 0xFE) == x | y | z) by (bit_vector);
    assert(ternary_word(x, y, z, 0x96) == x ^ y ^ z) by (bit_vector);
    assert(ternary_word(x, y, z, 0xE8) == (x & y) | (y & z) | (x & z)) by (bit_vector);
    assert(ternary_word(x, y, z, 0xCA) == (x & y) | (!x & z)) by (bit_vector);
    assert(ternary_word(x, y, z, 0x00) == 0) by (bit_vector);
    assert(ternary_word(x, y, z, 0xFF) == !0u128) by (bit_vector);
}

} // verus!
