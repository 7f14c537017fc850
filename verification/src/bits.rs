//! Facts about machine words: bitmaps, alignment and little-endian bytes.

use vstd::prelude::*;

verus! {

/// Bit `b` of `w`, counted from the least significant end.
pub open spec fn bit(w: u64, b: int) -> bool {
    (w >> (b as u64)) & 1 == 1
}

/// Setting one bit changes that bit alone.
pub proof fn lemma_set_bit(w: u64, b: u64)
    requires
        b < 64,
    ensures
        forall|c: int| 0 <= c < 64 ==> #[trigger] bit(w | (1u64 << b), c) == (c == b || bit(w, c)),
{
    assert forall|c: int| 0 <= c < 64 implies #[trigger] bit(w | (1u64 << b), c) == (c == b || bit(
        w,
        c,
    )) by {
        let d = c as u64;
        assert(((w | (1u64 << b)) >> d) & 1 == 1 <==> (d == b || (w >> d) & 1 == 1)) by (bit_vector)
            requires
                b < 64,
                d < 64,
        ;
    }
}

/// Clearing one bit changes that bit alone.
pub proof fn lemma_clear_bit(w: u64, b: u64)
    requires
        b < 64,
    ensures
        forall|c: int| 0 <= c < 64 ==> #[trigger] bit(w & !(1u64 << b), c) == (c != b && bit(w, c)),
{
    assert forall|c: int| 0 <= c < 64 implies #[trigger] bit(w & !(1u64 << b), c) == (c != b && bit(
        w,
        c,
    )) by {
        let d = c as u64;
        assert(((w & !(1u64 << b)) >> d) & 1 == 1 <==> (d != b && (w >> d) & 1 == 1)) by (bit_vector)
            requires
                b < 64,
                d < 64,
        ;
    }
}

/// The word without a set bit is zero, and the word of ones has every bit.
pub proof fn lemma_constant_words()
    ensures
        forall|c: int| 0 <= c < 64 ==> !#[trigger] bit(0u64, c),
        forall|c: int| 0 <= c < 64 ==> #[trigger] bit(!0u64, c),
{
    assert forall|c: int| 0 <= c < 64 implies !#[trigger] bit(0u64, c) && bit(!0u64, c) by {
        let d = c as u64;
        assert((0u64 >> d) & 1 == 0 && (!0u64 >> d) & 1 == 1) by (bit_vector)
            requires
                d < 64,
        ;
    }
    assert forall|c: int| 0 <= c < 64 implies #[trigger] bit(!0u64, c) by {
        assert(!bit(0u64, c));
    }
}

/// The number of trailing zeros of a word that is not zero is its lowest set bit.
pub proof fn lemma_lowest_bit(w: u64)
    requires
        w != 0,
    ensures
        0 <= w.trailing_zeros() < 64,
        bit(w, w.trailing_zeros() as int),
        forall|c: int| 0 <= c < w.trailing_zeros() ==> !#[trigger] bit(w, c),
{
    vstd::std_specs::bits::axiom_u64_trailing_zeros(w);
    assert forall|c: int| 0 <= c < w.trailing_zeros() implies !#[trigger] bit(w, c) by {
        let d = c as u64;
        assert((w >> d) & 1u64 == 0u64);
    }
}

/// `addr` rounded down to a multiple of `align`.
pub open spec fn spec_align_down(addr: int, align: int) -> int {
    addr - addr % align
}

/// `addr` rounded up to a multiple of `align`.
pub open spec fn spec_align_up(addr: int, align: int) -> int {
    spec_align_down(addr + align - 1, align)
}

} // verus!
