use ecs_world::bitfields::BitField;
use ecs_world::words::{low_word, word_bit, word_has, word_range, word_set, word_shift, word_unset, word_and};

#[test]
fn widths_of_the_mask_types() {
    assert_eq!(<u8 as BitField>::width(), 8);
    assert_eq!(<u16 as BitField>::width(), 16);
    assert_eq!(<u32 as BitField>::width(), 32);
    assert_eq!(<u64 as BitField>::width(), 64);
}

#[test]
fn zero_has_no_bit() {
    assert_eq!(<u8 as BitField>::zero(), 0u8);
    assert_eq!(<u64 as BitField>::zero(), 0u64);
}

#[test]
fn single_bits() {
    assert_eq!(<u8 as BitField>::bit(0), 1u8);
    assert_eq!(<u8 as BitField>::bit(3), 8u8);
    assert_eq!(<u8 as BitField>::bit(7), 128u8);
    assert_eq!(<u16 as BitField>::bit(15), 0x8000u16);
    assert_eq!(<u32 as BitField>::bit(31), 0x8000_0000u32);
    assert_eq!(<u64 as BitField>::bit(63), 0x8000_0000_0000_0000u64);
}

#[test]
fn a_bit_outside_the_width_is_no_bit() {
    assert_eq!(<u8 as BitField>::bit(8), 0u8);
    assert_eq!(<u8 as BitField>::bit(200), 0u8);
    assert_eq!(<u16 as BitField>::bit(16), 0u16);
    assert_eq!(<u32 as BitField>::bit(32), 0u32);
    assert_eq!(<u64 as BitField>::bit(64), 0u64);
}

#[test]
fn range_masks() {
    assert_eq!(<u8 as BitField>::bit_mask(0..2), 0b11u8);
    assert_eq!(<u8 as BitField>::bit_mask(1..3), 0b110u8);
    assert_eq!(<u8 as BitField>::bit_mask(0..8), 0xffu8);
    assert_eq!(<u8 as BitField>::bit_mask(4..8), 0xf0u8);
    assert_eq!(<u16 as BitField>::bit_mask(8..16), 0xff00u16);
    assert_eq!(<u32 as BitField>::bit_mask(0..32), 0xffff_ffffu32);
    assert_eq!(<u64 as BitField>::bit_mask(0..64), u64::MAX);
    assert_eq!(<u64 as BitField>::bit_mask(63..64), 1u64 << 63);
}

#[test]
fn empty_and_reversed_ranges_give_zero() {
    assert_eq!(<u8 as BitField>::bit_mask(3..3), 0u8);
    assert_eq!(<u8 as BitField>::bit_mask(5..2), 0u8);
    assert_eq!(<u8 as BitField>::bit_mask(8..12), 0u8);
}

#[test]
fn a_range_is_cut_at_the_width() {
    assert_eq!(<u8 as BitField>::bit_mask(6..200), 0b1100_0000u8);
    assert_eq!(<u16 as BitField>::bit_mask(0..17), 0xffffu16);
}

#[test]
fn superset_test() {
    assert!(0b1011u8.has_bit_mask(0b0011));
    assert!(0b1011u8.has_bit_mask(0b1011));
    assert!(0b1011u8.has_bit_mask(0));
    assert!(!0b1011u8.has_bit_mask(0b0100));
    assert!(!0b1011u8.has_bit_mask(0b1111));
    assert!(!0u8.has_bit_mask(1));
    assert!(u64::MAX.has_bit_mask(1u64 << 63));
}

#[test]
fn set_and_unset_bits() {
    let mut mask = 0b0101u8;
    mask.set_bit_mask(0b0011);
    assert_eq!(mask, 0b0111);
    mask.unset_bit_mask(0b0110);
    assert_eq!(mask, 0b0001);
    mask.unset_bit_mask(0b1000);
    assert_eq!(mask, 0b0001);
    let mut wide = 0u64;
    wide.set_bit_mask(1u64 << 63);
    wide.set_bit_mask(1);
    assert_eq!(wide, (1u64 << 63) | 1);
    wide.unset_bit_mask(1u64 << 63);
    assert_eq!(wide, 1);
}

#[test]
fn masked_keeps_the_common_bits() {
    assert_eq!(0b1101u8.masked(0b0110), 0b0100);
    assert_eq!(0xffffu16.masked(0x0ff0), 0x0ff0);
}

#[test]
fn shifted_moves_bits_up_and_drops_what_leaves() {
    assert_eq!(0b0011u8.shifted(2), 0b1100);
    assert_eq!(0b0011u8.shifted(7), 0b1000_0000);
    assert_eq!(0b0011u8.shifted(8), 0);
    assert_eq!(0b0011u8.shifted(0), 0b0011);
    assert_eq!(0xffu8.shifted(4), 0xf0);
    assert_eq!(1u64.shifted(63), 1u64 << 63);
    assert_eq!(1u64.shifted(64), 0);
    assert_eq!(3u32.shifted(31), 0x8000_0000);
}

#[test]
fn same_compares_values() {
    assert!(5u8.same(&5));
    assert!(!5u8.same(&4));
    assert!(u64::MAX.same(&u64::MAX));
}

#[test]
fn word_helpers_agree_with_the_machine() {
    assert_eq!(low_word(0), 0);
    assert_eq!(low_word(1), 1);
    assert_eq!(low_word(8), 0xff);
    assert_eq!(low_word(63), u64::MAX >> 1);
    assert_eq!(low_word(64), u64::MAX);
    assert_eq!(low_word(200), u64::MAX);
    assert_eq!(word_bit(5, 8), 32);
    assert_eq!(word_bit(8, 8), 0);
    assert_eq!(word_range(2, 5, 8), 0b11100);
    assert_eq!(word_range(2, 50, 8), 0b1111_1100);
    assert_eq!(word_range(5, 2, 8), 0);
    assert!(word_has(0b111, 0b101));
    assert!(!word_has(0b011, 0b101));
    assert_eq!(word_set(0b001, 0b100, 8), 0b101);
    assert_eq!(word_unset(0b111, 0b010, 8), 0b101);
    assert_eq!(word_and(0b110, 0b011, 8), 0b010);
    assert_eq!(word_shift(0b11, 7, 8), 0b1000_0000);
    assert_eq!(word_shift(0b11, 3, 64), 0b11000);
    assert_eq!(word_shift(0b11, 64, 64), 0);
}
