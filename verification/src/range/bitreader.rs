//! Reading a byte source bit by bit, most significant bit first.

use crate::errors::Error;
use crate::range::bits::{
    bit_at, bits_value, byte_bits, bytes_bits, lemma_bits_value_bound, lemma_bits_value_step,
    lemma_bytes_bits_empty, lemma_bytes_bits_split, lemma_whole_bytes_left_twice,
    whole_bytes_left,
};
use crate::range::source::{next_byte, unread};
use symphonia_core::io::BufReader;
use vstd::arithmetic::power2::{lemma2_to64, lemma_pow2_strictly_increases};
use vstd::prelude::*;

verus! {

/// A cursor over the bits of a byte source. It fetches a byte from the source
/// only when a bit is asked for and the byte in hand is used up, so it never
/// reads ahead.
pub struct BitReader<'a, 'b> {
    buf: &'a mut BufReader<'b>,
    /// How many bits of `current_byte` have been handed out; 0 where none of
    /// it is left, or none was fetched yet.
    bits_read: u32,
    current_byte: u8,
}

impl<'a, 'b> View for BitReader<'a, 'b> {
    type V = Seq<bool>;

    /// The bits that are still to be read, in reading order: the rest of the
    /// byte in hand, then every bit of the bytes left in the source.
    closed spec fn view(&self) -> Seq<bool> {
        self.held() + bytes_bits(unread(*self.buf))
    }
}

impl<'a, 'b> BitReader<'a, 'b> {
    /// The cursor stands inside the byte in hand.
    pub closed spec fn wf(self) -> bool {
        self.bits_read < 8
    }

    /// The bits of the byte in hand that were not handed out yet.
    spec fn held(self) -> Seq<bool> {
        if self.bits_read == 0 {
            Seq::empty()
        } else {
            byte_bits(self.current_byte).skip(self.bits_read as int)
        }
    }

    /// The bytes that are still in the source: those of which no bit has
    /// been read.
    pub closed spec fn source(self) -> Seq<u8> {
        unread(*self.buf)
    }

    /// The reader never has a whole byte in hand: the bits to be read are
    /// fewer than eight bits, followed by the bits of the source.
    pub proof fn lemma_source(self)
        requires
            self.wf(),
        ensures
            self.source().len() == self@.len() / 8,
            self@.skip((self@.len() % 8) as int) == bytes_bits(self.source()),
    {
        lemma_bytes_bits_empty(self.source());
        assert(self@.skip(self.held().len() as int) =~= bytes_bits(self.source()));
    }

    /// Starts reading at the source's next byte, without reading it yet.
    pub fn new(buf: &'a mut BufReader<'b>) -> (reader: Self)
        ensures
            reader.wf(),
            reader@ == bytes_bits(unread(*old(buf))),
            reader.source() == unread(*old(buf)),
    {
        let reader = BitReader { buf, bits_read: 0, current_byte: 0 };
        assert(reader@ =~= bytes_bits(unread(*old(buf))));
        reader
    }

    /// Reads one bit: 1 or 0. Fails where no bit is left, and only there.
    pub fn get_bit(&mut self) -> (res: Result<u32, Error>)
        requires
            old(self).wf(),
        ensures
            final(self).wf(),
            old(self)@.len() > 0 ==> (res matches Ok(bit) && bit == (if old(self)@[0] {
                1u32
            } else {
                0u32
            }) && final(self)@ == old(self)@.skip(1)),
            old(self)@.len() == 0 ==> res is Err && final(self)@ == old(self)@,
            final(self).source() == whole_bytes_left(old(self).source(), final(self)@.len()),
    {
        proof {
            lemma_bytes_bits_empty(unread(*self.buf));
            old(self).lemma_source();
            assert(old(self).source().skip(0) =~= old(self).source());
        }
        if self.bits_read == 0 {
            match next_byte(self.buf) {
                Ok(byte) => {
                    proof {
                        lemma_bytes_bits_split(unread(*old(self).buf));
                    }
                    self.current_byte = byte;
                },
                Err(e) => {
                    return Err(Error::IoError(e));
                },
            }
        }
        let ghost before = byte_bits(self.current_byte).skip(self.bits_read as int) + bytes_bits(
            unread(*self.buf),
        );
        assert(before =~= old(self)@);
        let byte = self.current_byte;
        let shift = 7 - self.bits_read;
        let bit = ((byte as u32) >> shift) & 1;
        assert(bit == 0 || bit == 1) by (bit_vector)
            requires
                bit == ((byte as u32) >> shift) & 1,
        ;
        assert(before[0] == bit_at(self.current_byte, self.bits_read as int));
        self.bits_read = (self.bits_read + 1) % 8;
        assert(self@ =~= before.skip(1));
        proof {
            self.lemma_source();
        }
        Ok(bit)
    }

    /// Reads `n` bits and returns the number they spell, first bit highest.
    /// Fails where fewer than `n` bits are left, having read them all.
    pub fn get_bits(&mut self, n: u32) -> (res: Result<u32, Error>)
        requires
            old(self).wf(),
            n <= 32,
        ensures
            final(self).wf(),
            old(self)@.len() >= n ==> (res matches Ok(v) && v == bits_value(
                old(self)@.take(n as int),
            ) && final(self)@ == old(self)@.skip(n as int)),
            old(self)@.len() < n ==> res is Err && final(self)@ == Seq::<bool>::empty(),
            final(self).source() == whole_bytes_left(old(self).source(), final(self)@.len()),
    {
        let ghost start = self@;
        proof {
            self.lemma_source();
            assert(self.source().skip(0) =~= self.source());
        }
        let mut acc: u32 = 0;
        let mut i: u32 = 0;
        while i < n
            invariant
                i <= n <= 32,
                i <= start.len(),
                start == old(self)@,
                self.wf(),
                old(self).source().len() == start.len() / 8,
                self.source() == whole_bytes_left(old(self).source(), self@.len()),
                self@ == start.skip(i as int),
                acc == bits_value(start.take(i as int)),
            decreases n - i,
        {
            proof {
                lemma_bits_value_bound(start.take(i as int));
                lemma2_to64();
                if i < 31 {
                    lemma_pow2_strictly_increases(i as nat, 31);
                }
            }
            let ghost whole = old(self).source();
            let ghost before = self@.len();
            proof {
                self.lemma_source();
            }
            match self.get_bit() {
                Ok(bit) => {
                    proof {
                        lemma_whole_bytes_left_twice(whole, before, self@.len());
                        assert(start.skip(i as int).skip(1) =~= start.skip(i + 1));
                        lemma_bits_value_step(start, i as int);
                        assert((acc << 1) | bit == 2 * acc + bit) by (bit_vector)
                            requires
                                acc < 0x8000_0000,
                                bit == 0 || bit == 1,
                        ;
                    }
                    acc = (acc << 1) | bit;
                },
                Err(e) => {
                    assert(start.skip(i as int) =~= Seq::<bool>::empty());
                    assert(self.source() =~= whole_bytes_left(old(self).source(), self@.len()));
                    return Err(e);
                },
            }
            i = i + 1;
        }
        Ok(acc)
    }
}

} // verus!
