//! Renormalization amounts, one pair for every value of a range's top bits.

use vstd::arithmetic::power2::{lemma2_to64, lemma_pow2_unfold, pow2};
use vstd::prelude::*;

verus! {

/// Number of entries in each half of the table: one per byte value.
pub const LOOKUP_TABLE_SIZE: usize = 256;

/// How far a range whose index is `top` is shifted left: the number of
/// doublings that bring `top` to 128 or above. No doubling lifts zero, and
/// at index zero the shift is a whole byte, eight.
pub open spec fn spec_normalize_shift(top: int) -> int
    decreases 256 - top,
{
    if top <= 0 {
        8
    } else if top >= 128 {
        0
    } else {
        1 + spec_normalize_shift(2 * top)
    }
}

/// The mask that goes with a shift: as many low one bits as the register is
/// shifted by.
pub open spec fn spec_normalize_add(top: int) -> int {
    pow2(spec_normalize_shift(top) as nat) - 1
}

/// The shift of a byte is between zero and eight, and is eight for zero alone;
/// a non-zero byte shifted by its amount reaches 128 and still fits in a byte.
pub proof fn lemma_shift_bounds(top: int)
    requires
        0 <= top < 256,
    ensures
        0 <= spec_normalize_shift(top) <= 8,
        spec_normalize_shift(top) == 8 <==> top == 0,
        top >= 1 ==> 128 <= top * pow2(spec_normalize_shift(top) as nat) < 256,
    decreases 256 - top,
{
    lemma2_to64();
    if top >= 128 {
        assert(spec_normalize_shift(top) == 0);
        assert(top * pow2(0) == top);
    } else if top >= 1 {
        lemma_shift_bounds(2 * top);
        let s = spec_normalize_shift(2 * top);
        assert(spec_normalize_shift(top) == s + 1);
        lemma_doubling(top, s);
        if s == 7 {
            assert(top * pow2(8) >= 256);
        }
    }
}

proof fn lemma_doubling(top: int, s: int)
    requires
        0 <= s,
    ensures
        top * pow2((s + 1) as nat) == (2 * top) * pow2(s as nat),
{
    lemma_pow2_unfold((s + 1) as nat);
    assert(top * (2 * pow2(s as nat)) == (2 * top) * pow2(s as nat)) by (nonlinear_arith);
}

/// For a non-zero byte the shift is the least number of doublings that reach
/// 128: no smaller number does.
pub proof fn lemma_shift_is_least(top: int, fewer: int)
    requires
        1 <= top < 256,
        0 <= fewer < spec_normalize_shift(top),
    ensures
        top * pow2(fewer as nat) < 128,
    decreases 256 - top,
{
    lemma2_to64();
    if top < 128 {
        let s = spec_normalize_shift(2 * top);
        assert(spec_normalize_shift(top) == s + 1);
        if fewer == 0 {
            assert(top * pow2(0) == top);
        } else {
            lemma_shift_is_least(2 * top, fewer - 1);
            lemma_doubling(top, fewer - 1);
        }
    }
}

/// The index at which the table is consulted for a range below `2^31`:
/// the range shifted right by 23.
pub fn index_for(range: u32) -> (index: u8)
    requires
        range < 0x8000_0000,
    ensures
        index == range as int / 0x0080_0000,
{
    assert(range >> 23 == range / 0x0080_0000 && range >> 23 < 256) by (bit_vector)
        requires
            range < 0x8000_0000,
    ;
    (range >> 23) as u8
}

/// The table of renormalization amounts. It is computed once and only read
/// afterwards, so one table serves any number of decoders.
pub struct LookupTable {
    normalize_shift: [u8; 256],
    normalize_add: [u32; 256],
}

impl LookupTable {
    #[verifier::type_invariant]
    spec fn holds_amounts(self) -> bool {
        &&& forall|i: int|
            0 <= i < 256 ==> (#[trigger] self.normalize_shift[i]) == spec_normalize_shift(i)
        &&& forall|i: int|
            0 <= i < 256 ==> (#[trigger] self.normalize_add[i]) == spec_normalize_add(i)
    }

    /// The shift stored at the index `top`.
    pub closed spec fn shift_at(self, top: int) -> int {
        self.normalize_shift[top] as int
    }

    /// The mask stored at the index `top`.
    pub closed spec fn add_at(self, top: int) -> int {
        self.normalize_add[top] as int
    }

    /// Computes the table. Every entry is a function of its index alone.
    pub fn new() -> (table: Self)
        ensures
            forall|i: int| 0 <= i < 256 ==> (#[trigger] table.shift_at(i)) == spec_normalize_shift(i),
            forall|i: int| 0 <= i < 256 ==> (#[trigger] table.add_at(i)) == spec_normalize_add(i),
    {
        let mut normalize_shift: [u8; 256] = [0u8; 256];
        let mut normalize_add: [u32; 256] = [0u32; 256];
        let mut i: usize = 0;
        while i < LOOKUP_TABLE_SIZE
            invariant
                i <= 256,
                forall|j: int|
                    0 <= j < i ==> (#[trigger] normalize_shift[j]) == spec_normalize_shift(j),
                forall|j: int|
                    0 <= j < i ==> (#[trigger] normalize_add[j]) == spec_normalize_add(j),
            decreases 256 - i,
        {
            let mut shift: u8 = 0;
            let mut add: u32 = 0;
            let mut v: usize = i;
            proof {
                lemma2_to64();
            }
            while v < 128 && shift < 8
                invariant
                    i < 256,
                    shift <= 8,
                    v < 256,
                    i == 0 ==> v == 0,
                    i > 0 ==> v >= pow2(shift as nat) && shift <= 7 && spec_normalize_shift(
                        i as int,
                    ) == shift + spec_normalize_shift(v as int),
                    add == pow2(shift as nat) - 1,
                decreases 8 - shift,
            {
                proof {
                    lemma2_to64();
                    lemma_pow2_unfold((shift + 1) as nat);
                    assert(v << 1 == 2 * v) by (bit_vector)
                        requires
                            v < 128,
                    ;
                    assert((add << 1) | 1 == 2 * add + 1) by (bit_vector)
                        requires
                            add < 256,
                    ;
                }
                v = v << 1;
                shift = shift + 1;
                add = (add << 1) | 1;
            }
            proof {
                lemma2_to64();
                if i > 0 {
                    assert(v >= 128);
                }
            }
            normalize_shift[i] = shift;
            normalize_add[i] = add;
            i = i + 1;
        }
        LookupTable { normalize_shift, normalize_add }
    }

    /// Looks up the shift at an index.
    pub fn shift_for(&self, top: u8) -> (shift: u8)
        ensures
            shift == spec_normalize_shift(top as int),
            shift == self.shift_at(top as int),
    {
        proof {
            use_type_invariant(self);
        }
        self.normalize_shift[top as usize]
    }

    /// Looks up the mask at an index.
    pub fn add_for(&self, top: u8) -> (mask: u32)
        ensures
            mask == spec_normalize_add(top as int),
            mask == self.add_at(top as int),
    {
        proof {
            use_type_invariant(self);
        }
        self.normalize_add[top as usize]
    }
}

} // verus!
