//! Bit-level facts about 64-bit words.
//!
//! Every mask type of this crate is stored in, or widened to, a `u64`.  This
//! module relates the machine operations on such a word to the set of
//! positions at which the word has a one, which is the model that the rest of
//! the crate reasons about.

use vstd::prelude::*;

verus! {

/// Whether `word` has a one at position `i`.
pub open spec fn bit_at(word: u64, i: u64) -> bool {
    (word >> i) & 1u64 == 1u64
}

/// Whether `word` has a one at position `i`, for any natural `i`.
pub open spec fn has_bit(word: u64, i: nat) -> bool {
    i < 64 && bit_at(word, i as u64)
}

/// The positions at which `word` has a one.
pub open spec fn word_bits(word: u64) -> Set<nat> {
    Set::new(|i: nat| has_bit(word, i))
}

/// The word whose ones are exactly the positions below `n`.
pub open spec fn low_mask(n: u64) -> u64 {
    if n >= 64 {
        0xffff_ffff_ffff_ffffu64
    } else {
        ((1u64 << n) - 1) as u64
    }
}

/// The one-bit set at `index`, empty when `index` lies outside the width.
pub open spec fn single_bit(index: nat, width: nat) -> Set<nat> {
    Set::new(|i: nat| i == index && i < width)
}

/// The positions of the half-open range `start..end` that lie inside the width.
pub open spec fn range_bits(start: nat, end: nat, width: nat) -> Set<nat> {
    Set::new(|i: nat| start <= i && i < end && i < width)
}

/// `bits` moved up by `by` positions; what leaves the width is dropped.
pub open spec fn shifted_bits(bits: Set<nat>, by: nat, width: nat) -> Set<nat> {
    Set::new(|i: nat| by <= i && i < width && bits.contains((i - by) as nat))
}

pub proof fn lemma_zero_bits()
    ensures
        word_bits(0u64) == Set::<nat>::empty(),
{
    assert forall|i: nat| !#[trigger] has_bit(0u64, i) by {
        let k = i as u64;
        assert(!bit_at(0u64, k)) by (bit_vector);
    }
    assert(word_bits(0u64) =~= Set::<nat>::empty());
}

pub proof fn lemma_one_bit(k: u64)
    requires
        k < 64,
    ensures
        forall|i: nat| #[trigger] has_bit(1u64 << k, i) <==> i == k,
{
    assert forall|i: nat| #[trigger] has_bit(1u64 << k, i) <==> i == k by {
        let j = i as u64;
        assert(k < 64 && j < 64 ==> (bit_at(1u64 << k, j) <==> j == k)) by (bit_vector);
    }
}

pub proof fn lemma_low_mask(n: u64)
    requires
        n <= 64,
    ensures
        forall|i: nat| #[trigger] has_bit(low_mask(n), i) <==> i < n,
{
    assert forall|i: nat| #[trigger] has_bit(low_mask(n), i) <==> i < n by {
        let j = i as u64;
        assert(j < 64 && n <= 64 ==> (bit_at(low_mask(n), j) <==> j < n)) by (bit_vector);
    }
}

pub proof fn lemma_or_bits(a: u64, b: u64)
    ensures
        word_bits(a | b) == word_bits(a).union(word_bits(b)),
        forall|i: nat| #[trigger] has_bit(a | b, i) <==> has_bit(a, i) || has_bit(b, i),
{
    assert forall|i: nat| #[trigger] has_bit(a | b, i) <==> has_bit(a, i) || has_bit(b, i) by {
        let j = i as u64;
        assert(bit_at(a | b, j) <==> bit_at(a, j) || bit_at(b, j)) by (bit_vector);
    }
    assert(word_bits(a | b) =~= word_bits(a).union(word_bits(b)));
}

pub proof fn lemma_and_bits(a: u64, b: u64)
    ensures
        word_bits(a & b) == word_bits(a).intersect(word_bits(b)),
        forall|i: nat| #[trigger] has_bit(a & b, i) <==> has_bit(a, i) && has_bit(b, i),
{
    assert forall|i: nat| #[trigger] has_bit(a & b, i) <==> has_bit(a, i) && has_bit(b, i) by {
        let j = i as u64;
        assert(bit_at(a & b, j) <==> bit_at(a, j) && bit_at(b, j)) by (bit_vector);
    }
    assert(word_bits(a & b) =~= word_bits(a).intersect(word_bits(b)));
}

pub proof fn lemma_and_not_bits(a: u64, b: u64)
    ensures
        word_bits(a & !b) == word_bits(a).difference(word_bits(b)),
        forall|i: nat| #[trigger] has_bit(a & !b, i) <==> has_bit(a, i) && !has_bit(b, i),
{
    assert forall|i: nat| #[trigger] has_bit(a & !b, i) <==> has_bit(a, i) && !has_bit(b, i) by {
        let j = i as u64;
        assert(j < 64 ==> (bit_at(a & !b, j) <==> bit_at(a, j) && !bit_at(b, j))) by (bit_vector);
    }
    assert(word_bits(a & !b) =~= word_bits(a).difference(word_bits(b)));
}

pub proof fn lemma_shl_bits(a: u64, k: u64)
    requires
        k < 64,
    ensures
        forall|i: nat| #[trigger]
            has_bit(a << k, i) <==> k <= i && i < 64 && has_bit(a, (i - k) as nat),
{
    assert forall|i: nat| #[trigger]
        has_bit(a << k, i) <==> k <= i && i < 64 && has_bit(a, (i - k) as nat) by {
        let j = i as u64;
        assert(k < 64 && j < 64 ==> (bit_at(a << k, j) <==> k <= j && bit_at(a, (j - k) as u64)))
            by (bit_vector);
        if k <= i && i < 64 {
            assert(((i - k) as nat) as u64 == (j - k) as u64);
        }
    }
}

proof fn lemma_differ_below(a: u64, b: u64, n: u64)
    requires
        n <= 64,
        (a & low_mask(n)) != (b & low_mask(n)),
    ensures
        exists|i: nat| i < n && has_bit(a, i) != has_bit(b, i),
    decreases n,
{
    if n == 0 {
        assert((a & low_mask(0)) == (b & low_mask(0))) by (bit_vector);
    } else {
        let m = (n - 1) as u64;
        assert(m < 64 && (a & low_mask((m + 1) as u64)) != (b & low_mask((m + 1) as u64)) ==> (a
            & low_mask(m)) != (b & low_mask(m)) || bit_at(a, m) != bit_at(b, m)) by (bit_vector);
        if (a & low_mask(m)) != (b & low_mask(m)) {
            lemma_differ_below(a, b, m);
        } else {
            assert(has_bit(a, m as nat) != has_bit(b, m as nat));
        }
    }
}

/// Two different words differ at some position.
pub proof fn lemma_words_differ(a: u64, b: u64)
    requires
        a != b,
    ensures
        exists|i: nat| has_bit(a, i) != has_bit(b, i),
{
    assert((a & low_mask(64)) == a && (b & low_mask(64)) == b) by (bit_vector);
    lemma_differ_below(a, b, 64);
}

/// `a & m == m` says that every one of `m` is a one of `a`.
pub proof fn lemma_superset(a: u64, m: u64)
    ensures
        (a & m == m) <==> word_bits(m).subset_of(word_bits(a)),
{
    lemma_and_bits(a, m);
    if a & m == m {
        assert(word_bits(m).subset_of(word_bits(a)));
    } else {
        lemma_words_differ(a & m, m);
        let i = choose|i: nat| has_bit(a & m, i) != has_bit(m, i);
        assert(word_bits(m).contains(i) && !word_bits(a).contains(i));
    }
}

/// A word below `2^width` has no one at or above `width`, and conversely.
pub proof fn lemma_fits(a: u64, width: u64)
    requires
        width <= 64,
    ensures
        a <= low_mask(width) <==> (forall|i: nat| #[trigger] has_bit(a, i) ==> i < width),
{
    assert(width <= 64 ==> (a <= low_mask(width) <==> a & low_mask(width) == a)) by (bit_vector);
    lemma_and_bits(a, low_mask(width));
    lemma_low_mask(width);
    if a & low_mask(width) == a {
        assert forall|i: nat| #[trigger] has_bit(a, i) implies i < width by {
            assert(has_bit(a & low_mask(width), i));
        }
    } else {
        lemma_words_differ(a & low_mask(width), a);
        let i = choose|i: nat| has_bit(a & low_mask(width), i) != has_bit(a, i);
        assert(has_bit(a, i) && !has_bit(low_mask(width), i));
    }
}

/// The word with ones below `n`.
pub fn low_word(n: u8) -> (m: u64)
    ensures
        m == low_mask(n as u64),
{
    if n >= 64 {
        0xffff_ffff_ffff_ffffu64
    } else {
        let one: u64 = 1u64 << n;
        assert(one >= 1) by (bit_vector)
            requires
                one == 1u64 << n,
                n < 64,
        ;
        one - 1
    }
}

/// The word with a single one at `index`, or zero when `index` is outside
/// the width.
pub fn word_bit(index: u8, width: u8) -> (m: u64)
    requires
        width <= 64,
    ensures
        word_bits(m) == single_bit(index as nat, width as nat),
        m <= low_mask(width as u64),
{
    if index < width {
        let m: u64 = 1u64 << index;
        proof {
            lemma_one_bit(index as u64);
            assert(word_bits(m) =~= single_bit(index as nat, width as nat));
            lemma_fits(m, width as u64);
        }
        m
    } else {
        proof {
            lemma_zero_bits();
            assert(word_bits(0u64) =~= single_bit(index as nat, width as nat));
        }
        0
    }
}

/// The word with ones at the positions of `start..end` inside the width.
pub fn word_range(start: u8, end: u8, width: u8) -> (m: u64)
    requires
        width <= 64,
    ensures
        word_bits(m) == range_bits(start as nat, end as nat, width as nat),
        m <= low_mask(width as u64),
{
    let top: u8 = if end < width { end } else { width };
    if start >= top {
        proof {
            lemma_zero_bits();
            assert(word_bits(0u64) =~= range_bits(start as nat, end as nat, width as nat));
        }
        0
    } else {
        let m: u64 = low_word(top) & !low_word(start);
        proof {
            lemma_and_not_bits(low_mask(top as u64), low_mask(start as u64));
            lemma_low_mask(top as u64);
            lemma_low_mask(start as u64);
            assert(word_bits(m) =~= range_bits(start as nat, end as nat, width as nat));
            lemma_fits(m, width as u64);
        }
        m
    }
}

/// Whether every one of `m` is a one of `a`.
pub fn word_has(a: u64, m: u64) -> (b: bool)
    ensures
        b == word_bits(m).subset_of(word_bits(a)),
{
    proof {
        lemma_superset(a, m);
    }
    a & m == m
}

/// The ones of `a` together with those of `m`.
pub fn word_set(a: u64, m: u64, width: u8) -> (r: u64)
    requires
        width <= 64,
        a <= low_mask(width as u64),
        m <= low_mask(width as u64),
    ensures
        word_bits(r) == word_bits(a).union(word_bits(m)),
        r <= low_mask(width as u64),
{
    let r: u64 = a | m;
    proof {
        lemma_or_bits(a, m);
        lemma_fits(a, width as u64);
        lemma_fits(m, width as u64);
        lemma_fits(r, width as u64);
    }
    r
}

/// The ones of `a` that are not ones of `m`.
pub fn word_unset(a: u64, m: u64, width: u8) -> (r: u64)
    requires
        width <= 64,
        a <= low_mask(width as u64),
    ensures
        word_bits(r) == word_bits(a).difference(word_bits(m)),
        r <= low_mask(width as u64),
{
    let r: u64 = a & !m;
    proof {
        lemma_and_not_bits(a, m);
        lemma_fits(a, width as u64);
        lemma_fits(r, width as u64);
    }
    r
}

/// The ones that `a` and `m` share.
pub fn word_and(a: u64, m: u64, width: u8) -> (r: u64)
    requires
        width <= 64,
        a <= low_mask(width as u64),
    ensures
        word_bits(r) == word_bits(a).intersect(word_bits(m)),
        r <= low_mask(width as u64),
{
    let r: u64 = a & m;
    proof {
        lemma_and_bits(a, m);
        lemma_fits(a, width as u64);
        lemma_fits(r, width as u64);
    }
    r
}

/// The ones of `a` moved up by `by` positions, inside the width.
pub fn word_shift(a: u64, by: u8, width: u8) -> (r: u64)
    requires
        width <= 64,
    ensures
        word_bits(r) == shifted_bits(word_bits(a), by as nat, width as nat),
        r <= low_mask(width as u64),
{
    if by >= width {
        proof {
            lemma_zero_bits();
            assert(word_bits(0u64) =~= shifted_bits(word_bits(a), by as nat, width as nat));
        }
        0
    } else {
        let r: u64 = (a << by) & low_word(width);
        proof {
            lemma_and_bits(a << by, low_mask(width as u64));
            lemma_shl_bits(a, by as u64);
            lemma_low_mask(width as u64);
            assert(word_bits(r) =~= shifted_bits(word_bits(a), by as nat, width as nat));
            lemma_fits(r, width as u64);
        }
        r
    }
}

} // verus!
