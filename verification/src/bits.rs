use vstd::prelude::*;

verus! {

/// The upper word of a 64-bit mask.
pub open spec fn high_word(mask: u64) -> u32 {
    (mask >> 32) as u32
}

/// The lower word of a 64-bit mask.
pub open spec fn low_word(mask: u64) -> u32 {
    (mask & 0xffff_ffff) as u32
}

/// Whether bit `i` of `mask` is set.
pub open spec fn bit_set(mask: u64, i: int) -> bool {
    0 <= i < 64 && (mask >> (i as u64)) & 1 == 1
}

/// Splitting a mask in two words and joining them gives the mask back.
pub proof fn lemma_split_join(mask: u64)
    ensures
        ((high_word(mask) as u64) << 32) | (low_word(mask) as u64) == mask,
{
    assert(((((mask >> 32) as u32) as u64) << 32) | (((mask & 0xffff_ffff) as u32) as u64) == mask)
        by (bit_vector);
}

/// Setting bit `i` of a mask sets that bit and no other.
pub proof fn lemma_set_bit(mask: u64, i: int, j: int)
    requires
        0 <= i < 64,
    ensures
        bit_set(mask | (1u64 << (i as u64)), j) == (bit_set(mask, j) || j == i),
        mask | (1u64 << (i as u64)) != 0,
{
    let iu = i as u64;
    assert(mask | (1u64 << iu) != 0) by (bit_vector)
        requires
            iu < 64,
    ;
    if 0 <= j < 64 {
        let ju = j as u64;
        assert((((mask | (1u64 << iu)) >> ju) & 1 == 1) == (((mask >> ju) & 1 == 1) || ju == iu))
            by (bit_vector)
            requires
                iu < 64,
                ju < 64,
        ;
    }
}

/// No bit of the zero mask is set.
pub proof fn lemma_zero_mask(j: int)
    ensures
        !bit_set(0, j),
{
    if 0 <= j < 64 {
        let ju = j as u64;
        assert((0u64 >> ju) & 1 == 0) by (bit_vector);
    }
}

/// A mask that is not zero has a bit that is set, at `from` or above if the
/// mask has anything there.
pub proof fn lemma_some_bit(mask: u64, from: int) -> (i: int)
    requires
        0 <= from < 64,
        mask >> (from as u64) != 0,
    ensures
        from <= i < 64,
        bit_set(mask, i),
    decreases 64 - from,
{
    let f = from as u64;
    if (mask >> f) & 1 == 1 {
        from
    } else {
        assert(f < 63 && mask >> ((f + 1) as u64) != 0) by (bit_vector)
            requires
                f < 64,
                mask >> f != 0,
                (mask >> f) & 1 != 1,
        ;
        lemma_some_bit(mask, from + 1)
    }
}

} // verus!
