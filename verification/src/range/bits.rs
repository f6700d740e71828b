//! Bytes seen as a sequence of bits, most significant bit first.

use vstd::arithmetic::power2::{lemma2_to64, lemma_pow2_unfold, pow2};
use vstd::prelude::*;

verus! {

/// Bit `i` of a byte, where bit 0 is the most significant and bit 7 the least.
pub open spec fn bit_at(byte: u8, i: int) -> bool {
    ((byte as u32) >> ((7 - i) as u32)) & 1 == 1
}

/// The eight bits of a byte, most significant first.
pub open spec fn byte_bits(byte: u8) -> Seq<bool> {
    Seq::new(8, |i: int| bit_at(byte, i))
}

/// The bits of a run of bytes: those of the first byte, then those of the
/// second, and so on.
pub open spec fn bytes_bits(bytes: Seq<u8>) -> Seq<bool> {
    Seq::new(8 * bytes.len(), |i: int| bit_at(bytes[i / 8], i % 8))
}

/// The number that a sequence of bits spells, most significant bit first.
pub open spec fn bits_value(bits: Seq<bool>) -> nat
    decreases bits.len(),
{
    if bits.len() == 0 {
        0
    } else {
        2 * bits_value(bits.drop_last()) + if bits.last() {
            1nat
        } else {
            0nat
        }
    }
}

/// Of `bytes`, those of which no bit is read yet when `bits` bits are left
/// to read and less than a byte is in hand: the last `bits / 8` of them.
pub open spec fn whole_bytes_left(bytes: Seq<u8>, bits: nat) -> Seq<u8> {
    bytes.skip(bytes.len() - bits / 8)
}

/// Reading on from where `first` bits were left until `then` bits are left
/// leaves the bytes that reading straight to `then` bits leaves.
pub proof fn lemma_whole_bytes_left_twice(bytes: Seq<u8>, first: nat, then: nat)
    requires
        then <= first,
        first / 8 <= bytes.len(),
    ensures
        whole_bytes_left(whole_bytes_left(bytes, first), then) == whole_bytes_left(bytes, then),
{
    assert(bytes.skip(bytes.len() - first / 8).skip(first / 8 - then / 8) =~= bytes.skip(
        bytes.len() - then / 8,
    ));
}

/// The bits of a run of bytes are the bits of its first byte followed by the
/// bits of the rest.
pub proof fn lemma_bytes_bits_split(bytes: Seq<u8>)
    requires
        bytes.len() > 0,
    ensures
        bytes_bits(bytes) == byte_bits(bytes[0]) + bytes_bits(bytes.skip(1)),
        bytes_bits(bytes).skip(8) == bytes_bits(bytes.skip(1)),
{
    let joined = byte_bits(bytes[0]) + bytes_bits(bytes.skip(1));
    assert forall|i: int| 0 <= i < 8 * bytes.len() implies bytes_bits(bytes)[i] == joined[i] by {
        if i >= 8 {
            assert((i - 8) / 8 == i / 8 - 1);
            assert((i - 8) % 8 == i % 8);
        }
    }
    assert(bytes_bits(bytes) =~= joined);
    assert(joined.skip(8) =~= bytes_bits(bytes.skip(1)));
}

/// No bytes, no bits.
pub proof fn lemma_bytes_bits_empty(bytes: Seq<u8>)
    ensures
        bytes_bits(bytes).len() == 8 * bytes.len(),
        bytes.len() == 0 ==> bytes_bits(bytes) == Seq::<bool>::empty(),
{
    if bytes.len() == 0 {
        assert(bytes_bits(bytes) =~= Seq::<bool>::empty());
    }
}

/// Reading one more bit doubles the number read so far and adds the bit.
pub proof fn lemma_bits_value_step(bits: Seq<bool>, n: int)
    requires
        0 <= n < bits.len(),
    ensures
        bits_value(bits.take(n + 1)) == 2 * bits_value(bits.take(n)) + if bits[n] {
            1nat
        } else {
            0nat
        },
{
    assert(bits.take(n + 1).drop_last() =~= bits.take(n));
}

/// `n` bits spell a number below two to the `n`.
pub proof fn lemma_bits_value_bound(bits: Seq<bool>)
    ensures
        bits_value(bits) < pow2(bits.len()),
    decreases bits.len(),
{
    lemma2_to64();
    if bits.len() > 0 {
        lemma_bits_value_bound(bits.drop_last());
        lemma_pow2_unfold(bits.len());
    }
}

} // verus!
