//! The range coder as plain arithmetic: two registers and the input bits that
//! have not been read yet. The decoder's contracts are stated over this model.

use crate::errors::Error;
use crate::range::bits::{bits_value, bytes_bits};
use crate::range::table::{spec_normalize_add, spec_normalize_shift};
use vstd::arithmetic::power2::pow2;
use vstd::prelude::*;

verus! {

/// The renormalization threshold, `2^23`: a range at or below it is widened
/// before the next symbol is decoded.
pub const MIN_RANGE: u32 = 0x0080_0000;

/// The mask that keeps the value register within 31 bits, `2^31 - 1`.
pub const MAX_VALUE: u32 = 0x7FFF_FFFF;

/// The largest total frequency that a table may have, `2^16`.
pub const MAX_TOTAL: u32 = 0x0001_0000;

/// What a decoder is, to its callers: the range register, the value
/// register, and the bits still to be read, in reading order.
pub struct State {
    pub range: int,
    pub value: int,
    pub input: Seq<bool>,
}

impl State {
    /// The state between two calls: the range is above the threshold and
    /// fits in 32 bits, and the value fits in 31 bits.
    pub open spec fn is_normal(self) -> bool {
        &&& MIN_RANGE < self.range < 0x1_0000_0000
        &&& 0 <= self.value <= MAX_VALUE
    }

    /// The same registers with no input left.
    pub open spec fn drained(self) -> State {
        State { range: self.range, value: self.value, input: Seq::empty() }
    }
}

/// The index at which the table is consulted for a range: the range shifted
/// right by 23, which is 0 or 1 for a range at or below the threshold.
pub open spec fn lookup_index(range: int) -> int {
    range / 0x0080_0000
}

/// The value register after it is shifted left by `shift` and the byte `sym`
/// is folded into it under `mask`: `(value << shift) + (mask - sym)`, kept to
/// 31 bits.
pub open spec fn fold_byte(value: int, shift: int, mask: int, sym: int) -> int {
    (value * pow2(shift as nat) + (mask - sym)) % 0x8000_0000
}

/// Renormalization: as long as the range is at or below the threshold, the
/// shift and the mask are looked up at the range's index, the range is
/// shifted left by the shift, and the next eight input bits are folded into
/// the value. `None` where the input ends before the range is above the
/// threshold.
pub open spec fn renormalize(range: int, value: int, input: Seq<bool>) -> Option<State>
    decreases input.len(),
{
    if range > MIN_RANGE {
        Some(State { range, value, input })
    } else if input.len() < 8 {
        None
    } else {
        let shift = spec_normalize_shift(lookup_index(range));
        let mask = spec_normalize_add(lookup_index(range));
        renormalize(
            range * pow2(shift as nat),
            fold_byte(value, shift, mask, bits_value(input.take(8)) as int),
            input.skip(8),
        )
    }
}

/// The number of bytes that renormalization folds in, starting from a
/// positive `range`: one for a range of exactly the threshold, which its
/// shift of seven brings to `2^30`, and one for each multiplication by 256
/// that a range below the threshold needs to come above it.
pub open spec fn bytes_needed(range: int) -> nat
    decreases 0x1_0000_0000 - range,
{
    if range > MIN_RANGE || range <= 0 {
        0
    } else if range == MIN_RANGE {
        1
    } else {
        1 + bytes_needed(range * 256)
    }
}

/// Whether renormalization from `range` succeeds on an input of `bits`
/// bits: the range is not zero, which no shift widens, and the input holds
/// the bytes that the range needs.
pub open spec fn can_renormalize(range: int, bits: nat) -> bool {
    range >= 1 && bits >= 8 * bytes_needed(range)
}

/// A freshly made decoder: the first seven bits `b` give the value
/// `127 - b` in a range of 128, which is then renormalized.
pub open spec fn init(input: Seq<bool>) -> Option<State> {
    if input.len() < 7 {
        None
    } else {
        renormalize(128, 127 - bits_value(input.take(7)), input.skip(7))
    }
}

/// The scale of a binary symbol: the range shifted right by `logp`.
pub open spec fn log_p_scale(range: int, logp: nat) -> int {
    range / (pow2(logp) as int)
}

/// The registers after a binary symbol is decoded and before they are
/// renormalized, with the outcome `value >= scale`: where it holds, the
/// scale is taken off both registers; else the scale becomes the range.
pub open spec fn log_p_step(range: int, value: int, logp: nat) -> (bool, int, int) {
    let scale = log_p_scale(range, logp);
    if value >= scale {
        (true, range - scale, value - scale)
    } else {
        (false, scale, value)
    }
}

/// Decoding one binary symbol: the symbol and the state after it, or `None`
/// where the input ends during renormalization.
pub open spec fn decode_log_p(s: State, logp: nat) -> Option<(bool, State)> {
    let (bit, range, value) = log_p_step(s.range, s.value, logp);
    match renormalize(range, value, s.input) {
        Some(next) => Some((bit, next)),
        None => None,
    }
}

/// A table as the decoder expects it: at least two entries; the first is
/// the total frequency, between 1 and `2^16`; from the second on they never
/// decrease; and the last equals the total.
pub open spec fn icdf_well_formed(cdf: Seq<u32>) -> bool {
    &&& cdf.len() >= 2
    &&& 1 <= cdf[0] <= MAX_TOTAL
    &&& cdf.last() == cdf[0]
    &&& forall|i: int, j: int| 1 <= i <= j < cdf.len() ==> cdf[i] <= cdf[j]
}

/// The threshold that the value stands at, for a total of `ft`:
/// `value / (range / ft)`.
pub open spec fn icdf_threshold(range: int, value: int, ft: int) -> int {
    value / (range / ft)
}

/// The first index from `k` on whose upper bound `cdf[k + 1]` is above
/// `threshold`; the last symbol, `len - 2`, where there is none.
pub open spec fn icdf_search(cdf: Seq<u32>, threshold: int, k: int) -> int
    decreases cdf.len() - k,
{
    if k + 2 >= cdf.len() || cdf[k + 1] > threshold {
        k
    } else {
        icdf_search(cdf, threshold, k + 1)
    }
}

/// The symbol that `threshold` selects: the smallest `k` with
/// `cdf[k + 1] > threshold`, or the last symbol where no upper bound is
/// above the threshold.
pub open spec fn icdf_symbol(cdf: Seq<u32>, threshold: int) -> int {
    icdf_search(cdf, threshold, 0)
}

/// The lower bound of symbol `k`: the entry at `k`.
pub open spec fn icdf_low(cdf: Seq<u32>, k: int) -> int {
    cdf[k] as int
}

/// The upper bound of symbol `k`: the entry after it.
pub open spec fn icdf_high(cdf: Seq<u32>, k: int) -> int {
    cdf[k + 1] as int
}

/// Whether the update for the symbol that the registers select stays within
/// unsigned arithmetic: the value covers what it loses, and a symbol with a
/// lower bound above zero has its upper bound at or above it.
pub open spec fn icdf_fits(range: int, value: int, cdf: Seq<u32>) -> bool {
    let ft = cdf[0] as int;
    let k = icdf_symbol(cdf, icdf_threshold(range, value, ft));
    &&& (range / ft) * (ft - icdf_high(cdf, k)) <= value
    &&& icdf_low(cdf, k) > 0 ==> icdf_low(cdf, k) <= icdf_high(cdf, k)
}

/// The registers, range first, after a symbol with bounds `fl` and `fh`
/// out of `ft` is taken: the value loses `scale * (ft - fh)`; the range
/// becomes `scale * (fh - fl)`, except for a symbol that starts at zero, whose
/// range loses what the value lost.
pub open spec fn update(range: int, value: int, scale: int, fl: int, fh: int, ft: int) -> (
    int,
    int,
) {
    (
        if fl > 0 {
            scale * (fh - fl)
        } else {
            range - scale * (ft - fh)
        },
        value - scale * (ft - fh),
    )
}

/// The symbol that a table-based decode yields from the given registers,
/// and the registers before renormalization, range first.
pub open spec fn icdf_step(range: int, value: int, cdf: Seq<u32>) -> (int, int, int) {
    let ft = cdf[0] as int;
    let k = icdf_symbol(cdf, icdf_threshold(range, value, ft));
    let (new_range, new_value) = update(
        range,
        value,
        range / ft,
        icdf_low(cdf, k),
        icdf_high(cdf, k),
        ft,
    );
    (k, new_range, new_value)
}

/// Decoding one symbol against a table: the symbol and the state after it,
/// or `None` where the input ends during renormalization.
pub open spec fn decode_icdf(s: State, cdf: Seq<u32>) -> Option<(int, State)> {
    let (k, range, value) = icdf_step(s.range, s.value, cdf);
    match renormalize(range, value, s.input) {
        Some(next) => Some((k, next)),
        None => None,
    }
}

/// What a result says of the symbol: the symbol itself, or nothing where the
/// call failed.
pub open spec fn outcome<T>(res: Result<T, Error>) -> Option<T> {
    match res {
        Ok(v) => Some(v),
        Err(_) => None,
    }
}

/// What decoding a binary symbol does to a decoder in state `before`: it
/// replies with the symbol and moves to the state after it; or, where the
/// input ends first, it replies with nothing, keeps the registers and has no
/// input left.
pub open spec fn log_p_post(before: State, logp: nat, reply: Option<bool>, after: State) -> bool {
    match decode_log_p(before, logp) {
        Some((bit, next)) => reply == Some(bit) && after == next,
        None => reply is None && after == before.drained(),
    }
}

/// What decoding a symbol against the table `cdf` does to a decoder in state
/// `before`: it replies with the symbol's index and moves to the state after
/// it, as a 32-bit number; or, where the input ends first, it replies with
/// nothing, keeps the registers and has no input left.
pub open spec fn icdf_post(before: State, cdf: Seq<u32>, reply: Option<u32>, after: State) -> bool {
    match decode_icdf(before, cdf) {
        Some((k, next)) => reply matches Some(symbol) && symbol == k % 0x1_0000_0000 && after
            == next,
        None => reply is None && after == before.drained(),
    }
}

/// What making a decoder over `bytes` gives: the state it starts in, or
/// nothing where the bytes are too few.
pub open spec fn new_post(bytes: Seq<u8>, reply: Option<State>) -> bool {
    reply == init(bytes_bits(bytes))
}

/// A call on a decoder: for a binary symbol with its `logp`, or for a symbol
/// of a table.
pub enum Call {
    LogP(nat),
    Icdf(Seq<u32>),
}

/// The reply to a call, of the kind that the call asks for.
pub enum Reply {
    Bit(Option<bool>),
    Symbol(Option<u32>),
}

/// Whether a decoder in state `before` may answer `call` with `reply` and
/// be in state `after`.
pub open spec fn call_post(before: State, call: Call, reply: Reply, after: State) -> bool {
    match (call, reply) {
        (Call::LogP(logp), Reply::Bit(bit)) => log_p_post(before, logp, bit, after),
        (Call::Icdf(cdf), Reply::Symbol(symbol)) => icdf_post(before, cdf, symbol, after),
        _ => false,
    }
}

/// A run of a decoder made over `bytes`: `states` are the states it passes
/// through, from the one it starts in, and `replies` the answers to `calls`,
/// one after the other.
pub open spec fn is_run(bytes: Seq<u8>, calls: Seq<Call>, replies: Seq<Reply>, states: Seq<State>) -> bool {
    &&& replies.len() == calls.len()
    &&& states.len() == calls.len() + 1
    &&& new_post(bytes, Some(states[0]))
    &&& forall|i: int|
        0 <= i < calls.len() ==> call_post(states[i], #[trigger] calls[i], replies[i], states[i + 1])
}

} // verus!
