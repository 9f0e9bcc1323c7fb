//! Fixed-width bit fields.
//!
//! A bit field is modelled by the set of positions at which it has a one.
//! All operations are total: a position outside the width is never set, and a
//! shift never overflows.

use std::ops::Range;
use vstd::prelude::*;

use crate::words::{word_and, word_bit, word_has, word_range, word_set, word_shift, word_unset};

verus! {

/// A fixed-width vector of bits, used for presence masks and flag names.
pub trait BitField: Copy {
    /// The number of positions of the field.
    spec fn bit_width() -> nat;

    /// The positions at which the field has a one.
    spec fn bits(&self) -> Set<nat>;

    /// The number of positions of the field.
    fn width() -> (w: u8)
        ensures
            w == Self::bit_width(),
    ;

    /// The field without any one.
    fn zero() -> (m: Self)
        ensures
            m.bits() == Set::<nat>::empty(),
    ;

    /// The field with a single one at `index`; no one at all when `index`
    /// is not a position of the field.
    fn bit(index: u8) -> (m: Self)
        ensures
            m.bits() == crate::words::single_bit(index as nat, Self::bit_width()),
    ;

    /// The field with ones at the positions `range.start..range.end`, as far
    /// as they are positions of the field.
    fn bit_mask(range: Range<u8>) -> (m: Self)
        ensures
            m.bits() == crate::words::range_bits(
                range.start as nat,
                range.end as nat,
                Self::bit_width(),
            ),
    ;

    /// Whether every one of `mask` is a one of `self`.
    fn has_bit_mask(&self, mask: Self) -> (b: bool)
        ensures
            b == mask.bits().subset_of(self.bits()),
    ;

    /// Sets the ones of `mask`.
    fn set_bit_mask(&mut self, mask: Self)
        ensures
            final(self).bits() == old(self).bits().union(mask.bits()),
    ;

    /// Clears the ones of `mask`.
    fn unset_bit_mask(&mut self, mask: Self)
        ensures
            final(self).bits() == old(self).bits().difference(mask.bits()),
    ;

    /// The ones that `self` and `mask` share.
    fn masked(self, mask: Self) -> (m: Self)
        ensures
            m.bits() == self.bits().intersect(mask.bits()),
    ;

    /// The ones of `self` moved up by `by` positions; ones that would leave
    /// the field are dropped.
    fn shifted(self, by: u8) -> (m: Self)
        ensures
            m.bits() == crate::words::shifted_bits(self.bits(), by as nat, Self::bit_width()),
    ;

    /// Whether the two fields are the same value.
    fn same(&self, other: &Self) -> (b: bool)
        ensures
            b == (*self == *other),
    ;
}

proof fn lemma_low_mask_8()
    ensures
        crate::words::low_mask(8) == 0xffu64,
{
    assert(crate::words::low_mask(8) == 0xffu64) by (bit_vector);
}

impl BitField for u8 {
    open spec fn bit_width() -> nat {
        8
    }

    open spec fn bits(&self) -> Set<nat> {
        crate::words::word_bits(*self as u64)
    }

    fn width() -> (w: u8) {
        8
    }

    fn zero() -> (m: Self) {
        proof {
            crate::words::lemma_zero_bits();
        }
        0
    }

    fn bit(index: u8) -> (m: Self) {
        let word: u64 = word_bit(index, 8);
        proof {
            lemma_low_mask_8();
        }
        word as u8
    }

    fn bit_mask(range: Range<u8>) -> (m: Self) {
        let word: u64 = word_range(range.start, range.end, 8);
        proof {
            lemma_low_mask_8();
        }
        word as u8
    }

    fn has_bit_mask(&self, mask: Self) -> (b: bool) {
        word_has(*self as u64, mask as u64)
    }

    fn set_bit_mask(&mut self, mask: Self) {
        proof {
            lemma_low_mask_8();
        }
        let word: u64 = word_set(*self as u64, mask as u64, 8);
        *self = word as u8;
    }

    fn unset_bit_mask(&mut self, mask: Self) {
        proof {
            lemma_low_mask_8();
        }
        let word: u64 = word_unset(*self as u64, mask as u64, 8);
        *self = word as u8;
    }

    fn masked(self, mask: Self) -> (m: Self) {
        proof {
            lemma_low_mask_8();
        }
        let word: u64 = word_and(self as u64, mask as u64, 8);
        word as u8
    }

    fn shifted(self, by: u8) -> (m: Self) {
        let word: u64 = word_shift(self as u64, by, 8);
        proof {
            lemma_low_mask_8();
        }
        word as u8
    }

    fn same(&self, other: &Self) -> (b: bool) {
        *self == *other
    }
}

proof fn lemma_low_mask_16()
    ensures
        crate::words::low_mask(16) == 0xffffu64,
{
    assert(crate::words::low_mask(16) == 0xffffu64) by (bit_vector);
}

impl BitField for u16 {
    open spec fn bit_width() -> nat {
        16
    }

    open spec fn bits(&self) -> Set<nat> {
        crate::words::word_bits(*self as u64)
    }

    fn width() -> (w: u8) {
        16
    }

    fn zero() -> (m: Self) {
        proof {
            crate::words::lemma_zero_bits();
        }
        0
    }

    fn bit(index: u8) -> (m: Self) {
        let word: u64 = word_bit(index, 16);
        proof {
            lemma_low_mask_16();
        }
        word as u16
    }

    fn bit_mask(range: Range<u8>) -> (m: Self) {
        let word: u64 = word_range(range.start, range.end, 16);
        proof {
            lemma_low_mask_16();
        }
        word as u16
    }

    fn has_bit_mask(&self, mask: Self) -> (b: bool) {
        word_has(*self as u64, mask as u64)
    }

    fn set_bit_mask(&mut self, mask: Self) {
        proof {
            lemma_low_mask_16();
        }
        let word: u64 = word_set(*self as u64, mask as u64, 16);
        *self = word as u16;
    }

    fn unset_bit_mask(&mut self, mask: Self) {
        proof {
            lemma_low_mask_16();
        }
        let word: u64 = word_unset(*self as u64, mask as u64, 16);
        *self = word as u16;
    }

    fn masked(self, mask: Self) -> (m: Self) {
        proof {
            lemma_low_mask_16();
        }
        let word: u64 = word_and(self as u64, mask as u64, 16);
        word as u16
    }

    fn shifted(self, by: u8) -> (m: Self) {
        let word: u64 = word_shift(self as u64, by, 16);
        proof {
            lemma_low_mask_16();
        }
        word as u16
    }

    fn same(&self, other: &Self) -> (b: bool) {
        *self == *other
    }
}

proof fn lemma_low_mask_32()
    ensures
        crate::words::low_mask(32) == 0xffff_ffffu64,
{
    assert(crate::words::low_mask(32) == 0xffff_ffffu64) by (bit_vector);
}

impl BitField for u32 {
    open spec fn bit_width() -> nat {
        32
    }

    open spec fn bits(&self) -> Set<nat> {
        crate::words::word_bits(*self as u64)
    }

    fn width() -> (w: u8) {
        32
    }

    fn zero() -> (m: Self) {
        proof {
            crate::words::lemma_zero_bits();
        }
        0
    }

    fn bit(index: u8) -> (m: Self) {
        let word: u64 = word_bit(index, 32);
        proof {
            lemma_low_mask_32();
        }
        word as u32
    }

    fn bit_mask(range: Range<u8>) -> (m: Self) {
        let word: u64 = word_range(range.start, range.end, 32);
        proof {
            lemma_low_mask_32();
        }
        word as u32
    }

    fn has_bit_mask(&self, mask: Self) -> (b: bool) {
        word_has(*self as u64, mask as u64)
    }

    fn set_bit_mask(&mut self, mask: Self) {
        proof {
            lemma_low_mask_32();
        }
        let word: u64 = word_set(*self as u64, mask as u64, 32);
        *self = word as u32;
    }

    fn unset_bit_mask(&mut self, mask: Self) {
        proof {
            lemma_low_mask_32();
        }
        let word: u64 = word_unset(*self as u64, mask as u64, 32);
        *self = word as u32;
    }

    fn masked(self, mask: Self) -> (m: Self) {
        proof {
            lemma_low_mask_32();
        }
        let word: u64 = word_and(self as u64, mask as u64, 32);
        word as u32
    }

    fn shifted(self, by: u8) -> (m: Self) {
        let word: u64 = word_shift(self as u64, by, 32);
        proof {
            lemma_low_mask_32();
        }
        word as u32
    }

    fn same(&self, other: &Self) -> (b: bool) {
        *self == *other
    }
}

proof fn lemma_low_mask_64()
    ensures
        crate::words::low_mask(64) == 0xffff_ffff_ffff_ffffu64,
{
    assert(crate::words::low_mask(64) == 0xffff_ffff_ffff_ffffu64) by (bit_vector);
}

impl BitField for u64 {
    open spec fn bit_width() -> nat {
        64
    }

    open spec fn bits(&self) -> Set<nat> {
        crate::words::word_bits(*self as u64)
    }

    fn width() -> (w: u8) {
        64
    }

    fn zero() -> (m: Self) {
        proof {
            crate::words::lemma_zero_bits();
        }
        0
    }

    fn bit(index: u8) -> (m: Self) {
        let word: u64 = word_bit(index, 64);
        proof {
            lemma_low_mask_64();
        }
        word as u64
    }

    fn bit_mask(range: Range<u8>) -> (m: Self) {
        let word: u64 = word_range(range.start, range.end, 64);
        proof {
            lemma_low_mask_64();
        }
        word as u64
    }

    fn has_bit_mask(&self, mask: Self) -> (b: bool) {
        word_has(*self as u64, mask as u64)
    }

    fn set_bit_mask(&mut self, mask: Self) {
        proof {
            lemma_low_mask_64();
        }
        let word: u64 = word_set(*self as u64, mask as u64, 64);
        *self = word as u64;
    }

    fn unset_bit_mask(&mut self, mask: Self) {
        proof {
            lemma_low_mask_64();
        }
        let word: u64 = word_unset(*self as u64, mask as u64, 64);
        *self = word as u64;
    }

    fn masked(self, mask: Self) -> (m: Self) {
        proof {
            lemma_low_mask_64();
        }
        let word: u64 = word_and(self as u64, mask as u64, 64);
        word as u64
    }

    fn shifted(self, by: u8) -> (m: Self) {
        let word: u64 = word_shift(self as u64, by, 64);
        proof {
            lemma_low_mask_64();
        }
        word as u64
    }

    fn same(&self, other: &Self) -> (b: bool) {
        *self == *other
    }
}

} // verus!
