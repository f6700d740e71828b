//! The range decoder: the entropy decoder of Opus.

use crate::errors::Error;
use crate::range::bitreader::BitReader;
use crate::range::bits::{
    bytes_bits, lemma_bits_value_bound, lemma_bytes_bits_empty, lemma_whole_bytes_left_twice,
    whole_bytes_left,
};
use crate::range::icdf::find_symbol;
use crate::range::laws::{
    lemma_amounts, lemma_icdf_entries, lemma_icdf_input, lemma_icdf_scale, lemma_icdf_step,
    lemma_icdf_symbol, lemma_init, lemma_log_p_input, lemma_log_p_scale, lemma_log_p_step,
    lemma_renormalize_input, lemma_renormalize_normal,
};
use crate::range::model::{
    bytes_needed, can_renormalize, fold_byte, icdf_fits, icdf_post, icdf_step, icdf_threshold,
    icdf_well_formed, init, log_p_post, log_p_step, new_post, outcome, renormalize, update, State,
    MAX_VALUE, MIN_RANGE,
};
use crate::range::source::{reader_over, unread};
use crate::range::table::{index_for, LookupTable};
use symphonia_core::io::BufReader;
use vstd::arithmetic::power2::{lemma2_to64, pow2};
use vstd::bits::lemma_u32_shr_is_div;
use vstd::prelude::*;

verus! {

/// A range decoder over one frame of compressed data. It is made at the
/// start of the frame, yields the frame's symbols in the order in which its
/// caller asks for them, and is dropped with the frame.
pub struct Decoder<'a, 'b> {
    table: &'a LookupTable,
    bits: BitReader<'a, 'b>,
    range: u32,
    value: u32,
}

impl<'a, 'b> View for Decoder<'a, 'b> {
    type V = State;

    closed spec fn view(&self) -> State {
        State { range: self.range as int, value: self.value as int, input: self.bits@ }
    }
}

impl<'a, 'b> Decoder<'a, 'b> {
    /// The decoder is between two calls: its state is normal.
    pub closed spec fn wf(self) -> bool {
        &&& self.bits.wf()
        &&& self@.is_normal()
    }

    /// The bytes that are still in the source: those of which no bit has
    /// been read.
    pub closed spec fn source(self) -> Seq<u8> {
        self.bits.source()
    }

    /// A well-formed decoder is in a normal state, and never has a whole
    /// byte in hand: its input is fewer than eight bits followed by the bits
    /// of the source.
    pub proof fn lemma_wf(self)
        requires
            self.wf(),
        ensures
            self@.is_normal(),
            self.source().len() == self@.input.len() / 8,
            self@.input.skip((self@.input.len() % 8) as int) == bytes_bits(self.source()),
    {
        self.bits.lemma_source();
    }

    /// Makes a decoder over the bytes that `buf` has not handed out yet. The
    /// first seven bits set the value, in a range of 128, and three more
    /// bytes widen the range: a source with four bytes or more gives a
    /// decoder, a shorter one gives the source's error.
    pub fn new(table: &'a LookupTable, buf: &'a mut BufReader<'b>) -> (res: Result<Self, Error>)
        ensures
            res matches Ok(d) ==> d.wf() && d@.is_normal() && new_post(
                unread(*old(buf)),
                Some(d@),
            ),
            res is Err ==> new_post(unread(*old(buf)), None),
            res is Ok <==> unread(*old(buf)).len() >= 4,
            res matches Ok(d) ==> d.source() == unread(*old(buf)).skip(4),
    {
        proof {
            lemma_init(bytes_bits(unread(*old(buf))));
            lemma_bytes_bits_empty(unread(*old(buf)));
        }
        let mut bits = BitReader::new(buf);
        let ghost input = bits@;
        let ghost whole = bits.source();
        let first = match bits.get_bits(7) {
            Ok(v) => v,
            Err(e) => {
                return Err(e);
            },
        };
        proof {
            lemma_bits_value_bound(input.take(7));
            lemma2_to64();
        }
        let ghost after_first = bits@.len();
        let (range, value) = match Self::normalize(table, &mut bits, 128, 127 - first) {
            Ok(registers) => registers,
            Err(e) => {
                return Err(e);
            },
        };
        proof {
            lemma_whole_bytes_left_twice(whole, after_first, bits@.len());
        }
        Ok(Decoder { table, bits, range, value })
    }

    /// The range register.
    pub fn range(&self) -> (range: u32)
        ensures
            range == self@.range,
    {
        self.range
    }

    /// The value register.
    pub fn value(&self) -> (value: u32)
        ensures
            value == self@.value,
    {
        self.value
    }

    /// Tells whether decoding against `cdf` now would stay within unsigned
    /// arithmetic, as `decode_symbol_with_icdf` requires.
    pub fn fits_icdf(&self, cdf: &[u32]) -> (fits: bool)
        requires
            self.wf(),
            icdf_well_formed(cdf@),
        ensures
            fits == icdf_fits(self@.range, self@.value, cdf@),
    {
        proof {
            lemma_icdf_scale(self.range as int, self.value as int, cdf[0] as int);
            lemma_icdf_symbol(cdf@, icdf_threshold(self@.range, self@.value, cdf[0] as int));
        }
        let ft = cdf[0];
        let scale = self.range / ft;
        let threshold = self.value / scale;
        let k = find_symbol(cdf, threshold);
        let fl = cdf[k];
        let fh = cdf[k + 1];
        proof {
            lemma_icdf_entries(cdf@, k + 1);
            assert(scale * (ft - fh) <= scale * ft) by (nonlinear_arith)
                requires
                    0 <= ft - fh <= ft,
                    scale >= 0,
            ;
        }
        scale * (ft - fh) <= self.value && (fl == 0 || fl <= fh)
    }

    /// Decodes one symbol against a table of cumulative frequencies and
    /// returns its index: the first symbol whose upper bound is above the
    /// threshold `value / (range / cdf[0])`, or the last symbol where none
    /// is. The registers change only where the call succeeds; where the input
    /// ends first, the call fails and no input is left.
    pub fn decode_symbol_with_icdf(&mut self, cdf: &[u32]) -> (res: Result<u32, Error>)
        requires
            old(self).wf(),
            icdf_well_formed(cdf@),
            icdf_fits(old(self)@.range, old(self)@.value, cdf@),
        ensures
            final(self).wf(),
            final(self)@.is_normal(),
            icdf_post(old(self)@, cdf@, outcome(res), final(self)@),
            res is Ok <==> can_renormalize(
                icdf_step(old(self)@.range, old(self)@.value, cdf@).1,
                old(self)@.input.len(),
            ),
            res is Ok ==> final(self).source() == old(self).source().skip(
                bytes_needed(icdf_step(old(self)@.range, old(self)@.value, cdf@).1) as int,
            ),
            res is Err ==> final(self).source().len() == 0,
    {
        proof {
            self.bits.lemma_source();
            lemma_icdf_input(self@, cdf@);
            lemma_icdf_scale(self.range as int, self.value as int, cdf[0] as int);
            lemma_icdf_step(self.range as int, self.value as int, cdf@);
            lemma_icdf_symbol(cdf@, icdf_threshold(self@.range, self@.value, cdf[0] as int));
        }
        let ft = cdf[0];
        let scale = self.range / ft;
        let threshold = self.value / scale;
        let k = find_symbol(cdf, threshold);
        let fl = cdf[k];
        let fh = cdf[k + 1];
        proof {
            lemma_icdf_entries(cdf@, k + 1);
        }
        let (range, value) = Self::update(self.range, self.value, scale, fl, fh, ft);
        proof {
            lemma_renormalize_normal(range as int, value as int, self.bits@);
        }
        let res = Self::normalize(self.table, &mut self.bits, range, value);
        proof {
            self.bits.lemma_source();
        }
        let wide_k = k as u64;
        let symbol = #[verifier::truncate] (wide_k as u32);
        assert(symbol == wide_k % 0x1_0000_0000) by (bit_vector)
            requires
                symbol == wide_k as u32,
        ;
        match res {
            Ok((range, value)) => {
                self.range = range;
                self.value = value;
                Ok(symbol)
            },
            Err(e) => Err(e),
        }
    }

    /// Decodes one binary symbol with the scale `range >> logp`, and tells
    /// whether the value was at or above the scale. The registers change
    /// only where the call succeeds; where the input ends first, the call
    /// fails and no input is left.
    pub fn decode_symbol_log_p(&mut self, logp: u32) -> (res: Result<bool, Error>)
        requires
            old(self).wf(),
        ensures
            final(self).wf(),
            final(self)@.is_normal(),
            log_p_post(old(self)@, logp as nat, outcome(res), final(self)@),
            res is Ok <==> can_renormalize(
                log_p_step(old(self)@.range, old(self)@.value, logp as nat).1,
                old(self)@.input.len(),
            ),
            res is Ok ==> final(self).source() == old(self).source().skip(
                bytes_needed(log_p_step(old(self)@.range, old(self)@.value, logp as nat).1) as int,
            ),
            res is Err ==> final(self).source().len() == 0,
    {
        proof {
            self.bits.lemma_source();
            lemma_log_p_input(self@, logp as nat);
            lemma_log_p_scale(self.range as int, logp as nat);
            lemma_log_p_step(self.range as int, self.value as int, logp as nat);
        }
        let scale = if logp < 32 {
            proof {
                lemma_u32_shr_is_div(self.range, logp);
            }
            self.range >> logp
        } else {
            0
        };
        let bit = self.value >= scale;
        let (range, value) = if bit {
            (self.range - scale, self.value - scale)
        } else {
            (scale, self.value)
        };
        proof {
            lemma_renormalize_normal(range as int, value as int, self.bits@);
        }
        let res = Self::normalize(self.table, &mut self.bits, range, value);
        proof {
            self.bits.lemma_source();
        }
        match res {
            Ok((range, value)) => {
                self.range = range;
                self.value = value;
                Ok(bit)
            },
            Err(e) => Err(e),
        }
    }

    /// The registers, range first, after a symbol with bounds `fl` and `fh`
    /// out of `ft` is taken, before they are renormalized.
    pub fn update(range: u32, value: u32, scale: u32, fl: u32, fh: u32, ft: u32) -> (res: (
        u32,
        u32,
    ))
        requires
            fh <= ft,
            fl > 0 ==> fl <= fh,
            scale * ft <= range,
            scale * (ft - fh) <= value,
        ensures
            (res.0 as int, res.1 as int) == update(
                range as int,
                value as int,
                scale as int,
                fl as int,
                fh as int,
                ft as int,
            ),
    {
        assert(scale * (ft - fh) <= scale * ft) by (nonlinear_arith)
            requires
                fh <= ft,
        ;
        let lost = scale * (ft - fh);
        let new_range = if fl > 0 {
            assert(scale * (fh - fl) <= scale * ft) by (nonlinear_arith)
                requires
                    fl <= fh <= ft,
            ;
            scale * (fh - fl)
        } else {
            range - lost
        };
        (new_range, value - lost)
    }

    /// Renormalizes the registers: while the range is at or below the
    /// threshold, looks up the shift and the mask at `range >> 23`, shifts
    /// the range, reads one byte and folds it into the value as
    /// `((value << shift) + (mask - byte))`, kept to 31 bits. Returns the
    /// registers, range first; fails where the input ends first, and then no
    /// input is left.
    #[verifier::loop_isolation(false)]
    pub fn normalize(table: &LookupTable, bits: &mut BitReader<'a, 'b>, range: u32, value: u32) -> (res:
        Result<(u32, u32), Error>)
        requires
            old(bits).wf(),
        ensures
            final(bits).wf(),
            match renormalize(range as int, value as int, old(bits)@) {
                Some(next) => (res matches Ok(registers) && registers.0 == next.range
                    && registers.1 == next.value && final(bits)@ == next.input),
                None => res is Err && final(bits)@ == Seq::<bool>::empty(),
            },
            res is Ok <==> can_renormalize(range as int, old(bits)@.len()),
            res matches Ok(registers) ==> registers.0 > MIN_RANGE && (value <= MAX_VALUE
                ==> registers.1 <= MAX_VALUE),
            final(bits).source() == whole_bytes_left(old(bits).source(), final(bits)@.len()),
    {
        proof {
            bits.lemma_source();
            assert(bits.source().skip(0) =~= bits.source());
            lemma_renormalize_input(range as int, value as int, bits@);
            if value <= MAX_VALUE {
                lemma_renormalize_normal(range as int, value as int, bits@);
            }
        }
        let mut r = range;
        let mut v = value;
        while r <= MIN_RANGE
            invariant
                bits.wf(),
                renormalize(r as int, v as int, bits@) == renormalize(
                    range as int,
                    value as int,
                    old(bits)@,
                ),
                bits@.len() <= old(bits)@.len(),
                old(bits).source().len() == old(bits)@.len() / 8,
                bits.source() == whole_bytes_left(old(bits).source(), bits@.len()),
            decreases bits@.len(),
        {
            let ghost input = bits@;
            proof {
                lemma_whole_bytes_left_twice(old(bits).source(), input.len(), 0);
                if input.len() >= 8 {
                    lemma_whole_bytes_left_twice(
                        old(bits).source(),
                        input.len(),
                        (input.len() - 8) as nat,
                    );
                }
                lemma_amounts(r as int);
                lemma_bits_value_bound(input.take(8));
                lemma2_to64();
            }
            let index = index_for(r);
            let shift = table.shift_for(index);
            let mask = table.add_for(index);
            let byte = match bits.get_bits(8) {
                Ok(byte) => byte,
                Err(e) => {
                    return Err(e);
                },
            };
            let wide_value = v as u64;
            proof {
                assert(shift == 8 ==> r << shift == r * 256) by (bit_vector)
                    requires
                        r <= 0x0080_0000,
                ;
                assert(shift == 7 ==> r << shift == r * 128) by (bit_vector)
                    requires
                        r <= 0x0080_0000,
                ;
                assert(shift == 8 ==> wide_value << shift == wide_value * 256) by (bit_vector)
                    requires
                        wide_value <= 0xFFFF_FFFF,
                ;
                assert(shift == 7 ==> wide_value << shift == wide_value * 128) by (bit_vector)
                    requires
                        wide_value <= 0xFFFF_FFFF,
                ;
            }
            let wide: u64 = (wide_value << shift) + (mask as u64) + 0x8000_0000 - (byte as u64);
            proof {
                assert(wide & 0x7FFF_FFFF == wide % 0x8000_0000 && wide & 0x7FFF_FFFF
                    <= 0x7FFF_FFFF) by (bit_vector);
                assert(wide as int == v * pow2(shift as nat) + (mask - byte) + 0x8000_0000);
                assert((wide & 0x7FFF_FFFF) == fold_byte(
                    v as int,
                    shift as int,
                    mask as int,
                    byte as int,
                ));
            }
            r = r << shift;
            v = (wide & 0x7FFF_FFFF) as u32;
        }
        Ok((r, v))
    }
}

/// The registers, range first, that a decoder over `frame` starts with, or
/// nothing where `frame` is too short to make one: shorter than four bytes.
pub fn initial_registers(table: &LookupTable, frame: &[u8]) -> (registers: Option<(u32, u32)>)
    ensures
        match init(bytes_bits(frame@)) {
            Some(s) => registers matches Some(r) && r.0 == s.range && r.1 == s.value,
            None => registers is None,
        },
        registers is Some <==> frame@.len() >= 4,
{
    let mut reader = reader_over(frame);
    match Decoder::new(table, &mut reader) {
        Ok(decoder) => Some((decoder.range(), decoder.value())),
        Err(_) => None,
    }
}

} // verus!
