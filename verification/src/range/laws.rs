//! What holds of the model in general: the bounds that every step keeps, and
//! how much input a step takes.

use crate::range::bits::{bits_value, bytes_bits, lemma_bits_value_bound};
use crate::range::model::{
    bytes_needed, call_post, can_renormalize, decode_icdf, decode_log_p, fold_byte, icdf_fits,
    icdf_high, icdf_low, icdf_post, icdf_search, icdf_step, icdf_symbol, icdf_threshold,
    icdf_well_formed, init, is_run, log_p_post, log_p_scale, log_p_step, lookup_index,
    renormalize, Call, Reply, State, MAX_TOTAL, MAX_VALUE, MIN_RANGE,
};
use crate::range::table::{spec_normalize_add, spec_normalize_shift};
use vstd::arithmetic::power2::{lemma2_to64, lemma_pow2_pos, lemma_pow2_strictly_increases, pow2};
use vstd::prelude::*;

verus! {

/// Registers as an update leaves them, before renormalization: a range
/// that fits in 32 bits and a value that fits in 31.
pub open spec fn is_updated(range: int, value: int) -> bool {
    &&& 0 <= range < 0x1_0000_0000
    &&& 0 <= value <= MAX_VALUE
}

/// The amounts at the two indices that renormalization looks up: a range
/// below the threshold is shifted by eight under a mask of 255, a range
/// of exactly the threshold by seven under a mask of 127.
pub proof fn lemma_amounts(range: int)
    requires
        0 <= range <= MIN_RANGE,
    ensures
        range < MIN_RANGE ==> lookup_index(range) == 0 && spec_normalize_shift(lookup_index(range))
            == 8 && spec_normalize_add(lookup_index(range)) == 255 && range * pow2(8) == range
            * 256,
        range == MIN_RANGE ==> lookup_index(range) == 1 && spec_normalize_shift(
            lookup_index(range),
        ) == 7 && spec_normalize_add(lookup_index(range)) == 127 && range * pow2(7)
            == 0x4000_0000,
{
    reveal_with_fuel(spec_normalize_shift, 9);
    lemma2_to64();
}

/// Renormalization ends above the threshold with the value in 31 bits,
/// whenever it ends at all.
pub proof fn lemma_renormalize_normal(range: int, value: int, input: Seq<bool>)
    requires
        is_updated(range, value),
    ensures
        renormalize(range, value, input) matches Some(next) ==> next.is_normal(),
    decreases input.len(),
{
    if range <= MIN_RANGE && input.len() >= 8 {
        let sym = bits_value(input.take(8)) as int;
        let shift = spec_normalize_shift(lookup_index(range));
        let mask = spec_normalize_add(lookup_index(range));
        lemma_amounts(range);
        lemma_renormalize_normal(
            range * pow2(shift as nat),
            fold_byte(value, shift, mask, sym),
            input.skip(8),
        );
    }
}

/// A range of zero is never widened: renormalization reads the input to its
/// end and fails.
pub proof fn lemma_renormalize_zero(value: int, input: Seq<bool>)
    ensures
        renormalize(0, value, input) is None,
    decreases input.len(),
{
    if input.len() >= 8 {
        lemma_amounts(0);
        let sym = bits_value(input.take(8)) as int;
        lemma_renormalize_zero(fold_byte(value, 8, 255, sym), input.skip(8));
    }
}

/// Renormalization takes exactly as many bytes as the range needs to come
/// above the threshold, no more: it succeeds where the range is not zero and
/// the input has at least that many, leaves the rest unread, and fails
/// otherwise.
pub proof fn lemma_renormalize_input(range: int, value: int, input: Seq<bool>)
    requires
        0 <= range,
    ensures
        renormalize(range, value, input) is Some <==> can_renormalize(range, input.len()),
        renormalize(range, value, input) matches Some(next) ==> next.input == input.skip(
            8 * bytes_needed(range) as int,
        ),
    decreases input.len(),
{
    if range == 0 {
        lemma_renormalize_zero(value, input);
    } else if range > MIN_RANGE {
        assert(input.skip(0) =~= input);
    } else if input.len() >= 8 {
        let sym = bits_value(input.take(8)) as int;
        let shift = spec_normalize_shift(lookup_index(range));
        let mask = spec_normalize_add(lookup_index(range));
        lemma_amounts(range);
        lemma_renormalize_input(
            range * pow2(shift as nat),
            fold_byte(value, shift, mask, sym),
            input.skip(8),
        );
        let rest = 8 * bytes_needed(range * pow2(shift as nat)) as int;
        assert(bytes_needed(range) == 1 + bytes_needed(range * pow2(shift as nat)));
        if input.skip(8).len() >= rest {
            assert(input.skip(8).skip(rest) =~= input.skip(8 + rest));
        }
    } else {
        lemma_amounts(range);
    }
}

/// A range of 128, as a new decoder starts with, needs three bytes.
pub proof fn lemma_bytes_needed_at_start()
    ensures
        bytes_needed(128) == 3,
{
    reveal_with_fuel(bytes_needed, 4);
}

/// A decoder can be made from 31 bits of input or more, and from no fewer:
/// seven for the first value and three bytes to widen the range. It starts
/// in a normal state, with the remaining input unread.
pub proof fn lemma_init(input: Seq<bool>)
    ensures
        init(input) is Some <==> input.len() >= 31,
        init(input) matches Some(s) ==> s.is_normal() && s.input == input.skip(31),
{
    if input.len() >= 7 {
        let first = bits_value(input.take(7)) as int;
        lemma_bits_value_bound(input.take(7));
        lemma2_to64();
        lemma_bytes_needed_at_start();
        lemma_renormalize_input(128, 127 - first, input.skip(7));
        lemma_renormalize_normal(128, 127 - first, input.skip(7));
        if input.len() >= 31 {
            assert(input.skip(7).skip(24) =~= input.skip(31));
        }
    }
}

/// The scale of a binary symbol lies between zero and the range.
pub proof fn lemma_log_p_scale(range: int, logp: nat)
    requires
        0 <= range,
    ensures
        0 <= log_p_scale(range, logp) <= range,
        logp >= 32 && range < 0x1_0000_0000 ==> log_p_scale(range, logp) == 0,
{
    lemma_pow2_pos(logp);
    let p = pow2(logp) as int;
    assert(0 <= range / p <= range) by (nonlinear_arith)
        requires
            p >= 1,
            range >= 0,
    ;
    if logp >= 32 && range < 0x1_0000_0000 {
        lemma2_to64();
        if logp > 32 {
            lemma_pow2_strictly_increases(32, logp);
        }
        assert(range / p == 0) by (nonlinear_arith)
            requires
                0 <= range < p,
        ;
    }
}

/// Decoding a binary symbol from a normal state underflows nothing and
/// leaves registers that renormalization can take.
pub proof fn lemma_log_p_step(range: int, value: int, logp: nat)
    requires
        MIN_RANGE < range < 0x1_0000_0000,
        0 <= value <= MAX_VALUE,
    ensures
        is_updated(log_p_step(range, value, logp).1, log_p_step(range, value, logp).2),
{
    lemma_log_p_scale(range, logp);
}

/// The range invariant for binary symbols: from a normal state, a decode
/// that succeeds ends in a normal state.
pub proof fn lemma_log_p_keeps_normal(s: State, logp: nat)
    requires
        s.is_normal(),
    ensures
        decode_log_p(s, logp) matches Some((_, next)) ==> next.is_normal(),
{
    lemma_log_p_step(s.range, s.value, logp);
    let (_, range, value) = log_p_step(s.range, s.value, logp);
    lemma_renormalize_normal(range, value, s.input);
}

/// Every entry of a well-formed table is at most the total.
pub proof fn lemma_icdf_entries(cdf: Seq<u32>, i: int)
    requires
        icdf_well_formed(cdf),
        0 <= i < cdf.len(),
    ensures
        cdf[i] <= cdf[0],
{
    if i >= 1 {
        assert(cdf[i] <= cdf[cdf.len() - 1]);
    }
}

/// The search stops at the least index whose upper bound is above the
/// threshold, and at the last symbol where no upper bound is above it.
pub proof fn lemma_icdf_search(cdf: Seq<u32>, threshold: int, k: int)
    requires
        cdf.len() >= 2,
        0 <= k <= cdf.len() - 2,
        forall|j: int| 1 <= j <= k ==> cdf[j] <= threshold,
    ensures
        k <= icdf_search(cdf, threshold, k) <= cdf.len() - 2,
        forall|j: int| 1 <= j <= icdf_search(cdf, threshold, k) ==> cdf[j] <= threshold,
        cdf[icdf_search(cdf, threshold, k) + 1] > threshold || icdf_search(cdf, threshold, k)
            == cdf.len() - 2,
    decreases cdf.len() - k,
{
    if k + 2 >= cdf.len() || cdf[k + 1] > threshold {
    } else {
        lemma_icdf_search(cdf, threshold, k + 1);
    }
}

/// The symbol that a threshold selects: where some upper bound is above the
/// threshold, the smallest index with such a bound; where none is, the last
/// symbol.
pub proof fn lemma_icdf_symbol(cdf: Seq<u32>, threshold: int)
    requires
        cdf.len() >= 2,
    ensures
        0 <= icdf_symbol(cdf, threshold) <= cdf.len() - 2,
        forall|j: int| 1 <= j <= icdf_symbol(cdf, threshold) ==> cdf[j] <= threshold,
        (exists|j: int| 1 <= j < cdf.len() && cdf[j] > threshold) ==> cdf[icdf_symbol(
            cdf,
            threshold,
        ) + 1] > threshold,
        (forall|j: int| 1 <= j < cdf.len() ==> cdf[j] <= threshold) ==> icdf_symbol(
            cdf,
            threshold,
        ) == cdf.len() - 2,
{
    lemma_icdf_search(cdf, threshold, 0);
    let k = icdf_symbol(cdf, threshold);
    if exists|j: int| 1 <= j < cdf.len() && cdf[j] > threshold {
        let j = choose|j: int| 1 <= j < cdf.len() && cdf[j] > threshold;
        if cdf[k + 1] <= threshold {
            assert(k == cdf.len() - 2);
            assert(j == k + 1);
        }
    }
    if forall|j: int| 1 <= j < cdf.len() ==> cdf[j] <= threshold {
        assert(cdf[k + 1] <= threshold);
    }
}

/// Where no upper bound is above the threshold, the update always fits: the
/// last symbol ends at the total, so the value loses nothing, and its lower
/// bound is not above its upper bound.
pub proof fn lemma_fallback_fits(range: int, value: int, cdf: Seq<u32>)
    requires
        icdf_well_formed(cdf),
        0 <= value,
        forall|j: int|
            1 <= j < cdf.len() ==> #[trigger] cdf[j] <= icdf_threshold(range, value, cdf[0] as int),
    ensures
        icdf_symbol(cdf, icdf_threshold(range, value, cdf[0] as int)) == cdf.len() - 2,
        icdf_fits(range, value, cdf),
{
    let threshold = icdf_threshold(range, value, cdf[0] as int);
    lemma_icdf_symbol(cdf, threshold);
    let k = icdf_symbol(cdf, threshold);
    assert(cdf[k + 1] == cdf[0]);
    assert((range / (cdf[0] as int)) * (cdf[0] - cdf[k + 1]) == 0) by (nonlinear_arith)
        requires
            cdf[0] - cdf[k + 1] == 0,
    ;
    if k >= 1 {
        assert(cdf[k] <= cdf[k + 1]);
    }
}

/// The scale of a well-formed table, from a range above the threshold, is
/// at least 128 and covers the range from below.
pub proof fn lemma_icdf_scale(range: int, value: int, ft: int)
    requires
        MIN_RANGE < range < 0x1_0000_0000,
        0 <= value <= MAX_VALUE,
        1 <= ft <= MAX_TOTAL,
    ensures
        128 <= range / ft,
        (range / ft) * ft <= range,
        0 <= icdf_threshold(range, value, ft) <= value,
{
    let scale = range / ft;
    assert(128 <= scale && scale * ft <= range) by (nonlinear_arith)
        requires
            scale == range / ft,
            0x0080_0000 < range,
            1 <= ft <= 0x0001_0000,
    ;
    assert(0 <= value / scale <= value) by (nonlinear_arith)
        requires
            scale >= 128,
            value >= 0,
    ;
}

/// Decoding against a well-formed table from a normal state, where the
/// update fits, leaves registers that renormalization can take.
pub proof fn lemma_icdf_step(range: int, value: int, cdf: Seq<u32>)
    requires
        MIN_RANGE < range < 0x1_0000_0000,
        0 <= value <= MAX_VALUE,
        icdf_well_formed(cdf),
        icdf_fits(range, value, cdf),
    ensures
        0 <= icdf_step(range, value, cdf).0 <= cdf.len() - 2,
        is_updated(icdf_step(range, value, cdf).1, icdf_step(range, value, cdf).2),
{
    let ft = cdf[0] as int;
    let scale = range / ft;
    let threshold = icdf_threshold(range, value, ft);
    lemma_icdf_scale(range, value, ft);
    lemma_icdf_symbol(cdf, threshold);
    let k = icdf_symbol(cdf, threshold);
    lemma_icdf_entries(cdf, k);
    lemma_icdf_entries(cdf, k + 1);
    let fl = icdf_low(cdf, k);
    let fh = icdf_high(cdf, k);
    let lost = scale * (ft - fh);
    assert(0 <= lost <= scale * ft) by (nonlinear_arith)
        requires
            lost == scale * (ft - fh),
            0 <= ft - fh <= ft,
            scale >= 0,
    ;
    if fl > 0 {
        let width = scale * (fh - fl);
        assert(0 <= width <= scale * ft) by (nonlinear_arith)
            requires
                width == scale * (fh - fl),
                0 <= fh - fl <= ft,
                scale >= 0,
        ;
    }
}

/// The range invariant for table-based symbols: from a normal state and a
/// well-formed table, a decode that fits and succeeds ends in a normal
/// state.
pub proof fn lemma_icdf_keeps_normal(s: State, cdf: Seq<u32>)
    requires
        s.is_normal(),
        icdf_well_formed(cdf),
        icdf_fits(s.range, s.value, cdf),
    ensures
        decode_icdf(s, cdf) matches Some((k, next)) ==> next.is_normal() && 0 <= k <= cdf.len()
            - 2,
{
    lemma_icdf_step(s.range, s.value, cdf);
    let (_, range, value) = icdf_step(s.range, s.value, cdf);
    lemma_renormalize_normal(range, value, s.input);
}

/// A binary symbol is decoded exactly where the range after the symbol is
/// taken is not zero and the input holds the bytes that it needs, and those
/// bytes are all that is read: a range above the threshold reads nothing.
pub proof fn lemma_log_p_input(s: State, logp: nat)
    requires
        s.is_normal(),
    ensures
        decode_log_p(s, logp) is Some <==> can_renormalize(
            log_p_step(s.range, s.value, logp).1,
            s.input.len(),
        ),
        decode_log_p(s, logp) matches Some((_, next)) ==> next.input == s.input.skip(
            8 * bytes_needed(log_p_step(s.range, s.value, logp).1) as int,
        ),
{
    lemma_log_p_step(s.range, s.value, logp);
    let (_, range, value) = log_p_step(s.range, s.value, logp);
    lemma_renormalize_input(range, value, s.input);
}

/// A symbol of a well-formed table is decoded exactly where the range after
/// the symbol is taken is not zero and the input holds the bytes that it
/// needs, and those bytes are all that is read: a range above the threshold
/// reads nothing.
pub proof fn lemma_icdf_input(s: State, cdf: Seq<u32>)
    requires
        s.is_normal(),
        icdf_well_formed(cdf),
        icdf_fits(s.range, s.value, cdf),
    ensures
        decode_icdf(s, cdf) is Some <==> can_renormalize(
            icdf_step(s.range, s.value, cdf).1,
            s.input.len(),
        ),
        decode_icdf(s, cdf) matches Some((_, next)) ==> next.input == s.input.skip(
            8 * bytes_needed(icdf_step(s.range, s.value, cdf).1) as int,
        ),
{
    lemma_icdf_step(s.range, s.value, cdf);
    let (_, range, value) = icdf_step(s.range, s.value, cdf);
    lemma_renormalize_input(range, value, s.input);
}

/// Decoding a binary symbol is deterministic: from one state and one
/// `logp`, every reply and every state after it are the same.
pub proof fn lemma_log_p_deterministic(
    before: State,
    logp: nat,
    reply1: Option<bool>,
    after1: State,
    reply2: Option<bool>,
    after2: State,
)
    requires
        log_p_post(before, logp, reply1, after1),
        log_p_post(before, logp, reply2, after2),
    ensures
        reply1 == reply2,
        after1 == after2,
{
}

/// Decoding against a table is deterministic: from one state and one
/// table, every reply and every state after it are the same.
pub proof fn lemma_icdf_deterministic(
    before: State,
    cdf: Seq<u32>,
    reply1: Option<u32>,
    after1: State,
    reply2: Option<u32>,
    after2: State,
)
    requires
        icdf_post(before, cdf, reply1, after1),
        icdf_post(before, cdf, reply2, after2),
    ensures
        reply1 == reply2,
        after1 == after2,
{
}

/// A call that the decoder takes in state `before`: any `logp`, and any
/// well-formed table whose update fits.
pub open spec fn call_is_allowed(before: State, call: Call) -> bool {
    match call {
        Call::LogP(_) => true,
        Call::Icdf(cdf) => icdf_well_formed(cdf) && icdf_fits(before.range, before.value, cdf),
    }
}

/// A step of a decoder keeps its state normal, whether the call succeeds or
/// fails.
pub proof fn lemma_call_keeps_normal(before: State, call: Call, reply: Reply, after: State)
    requires
        before.is_normal(),
        call_is_allowed(before, call),
        call_post(before, call, reply, after),
    ensures
        after.is_normal(),
{
    match call {
        Call::LogP(logp) => {
            lemma_log_p_keeps_normal(before, logp);
        },
        Call::Icdf(cdf) => {
            lemma_icdf_keeps_normal(before, cdf);
        },
    }
}

/// The range invariant: in a run of allowed calls every state is normal,
/// the first one and the one after each call.
pub proof fn lemma_run_stays_normal(
    bytes: Seq<u8>,
    calls: Seq<Call>,
    replies: Seq<Reply>,
    states: Seq<State>,
    at: int,
)
    requires
        is_run(bytes, calls, replies, states),
        forall|i: int| 0 <= i < calls.len() ==> call_is_allowed(states[i], #[trigger] calls[i]),
        0 <= at <= calls.len(),
    ensures
        states[at].is_normal(),
    decreases at,
{
    if at == 0 {
        lemma_init(bytes_bits(bytes));
    } else {
        lemma_run_stays_normal(bytes, calls, replies, states, at - 1);
        let call = calls[at - 1];
        assert(call_post(states[at - 1], call, replies[at - 1], states[at - 1 + 1]));
        lemma_call_keeps_normal(states[at - 1], call, replies[at - 1], states[at]);
    }
}

/// Two runs over the same bytes with the same calls pass through the same
/// states, as far as `upto`.
proof fn lemma_runs_agree_upto(
    bytes: Seq<u8>,
    calls: Seq<Call>,
    replies1: Seq<Reply>,
    states1: Seq<State>,
    replies2: Seq<Reply>,
    states2: Seq<State>,
    upto: int,
)
    requires
        is_run(bytes, calls, replies1, states1),
        is_run(bytes, calls, replies2, states2),
        0 <= upto <= calls.len(),
    ensures
        states1[upto] == states2[upto],
        upto > 0 ==> replies1[upto - 1] == replies2[upto - 1],
    decreases upto,
{
    if upto > 0 {
        lemma_runs_agree_upto(bytes, calls, replies1, states1, replies2, states2, upto - 1);
        let call = calls[upto - 1];
        assert(call_post(states1[upto - 1], call, replies1[upto - 1], states1[upto - 1 + 1]));
        assert(call_post(states2[upto - 1], call, replies2[upto - 1], states2[upto - 1 + 1]));
    }
}

/// Determinism: two decoders made over the same bytes and given the same
/// calls give the same reply to every call and are in the same state after
/// every call.
pub proof fn lemma_runs_agree(
    bytes: Seq<u8>,
    calls: Seq<Call>,
    replies1: Seq<Reply>,
    states1: Seq<State>,
    replies2: Seq<Reply>,
    states2: Seq<State>,
)
    requires
        is_run(bytes, calls, replies1, states1),
        is_run(bytes, calls, replies2, states2),
    ensures
        replies1 == replies2,
        states1 == states2,
{
    assert forall|i: int| 0 <= i < states1.len() implies states1[i] == states2[i] by {
        lemma_runs_agree_upto(bytes, calls, replies1, states1, replies2, states2, i);
    }
    assert forall|i: int| 0 <= i < replies1.len() implies replies1[i] == replies2[i] by {
        lemma_runs_agree_upto(bytes, calls, replies1, states1, replies2, states2, i + 1);
    }
    assert(states1 =~= states2);
    assert(replies1 =~= replies2);
}

} // verus!
