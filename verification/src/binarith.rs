//! Binary arithmetic coder.
//!
//! This module holds a general coder for single bits with given counts of
//! zeros and ones, after Moffat, Neal and Witten, "Arithmetic Coding
//! Revisited" (1998), and on top of it a `Writer` and a `Reader` that code
//! the bits of a byte stream with an adaptive model of order 16.
//!
//! The wire format is the coder's own and has nothing in common with that of
//! the arithmetic coder for bytes.

use vstd::prelude::*;
use crate::bits::{byte_bit, lemma_mask_ops, weight};
use crate::error::Error;

verus! {

pub type Word = u64;

pub type Count = u32;

pub type Bit = usize;

/// One half of the code space.
pub const HALF: Word = 0x0800_0000_0000_0000;

/// One quarter of the code space.
pub const QUARTER: Word = 0x0400_0000_0000_0000;

/// The limit below which every count must stay.
pub const COUNT_LIMIT: Count = 0x4000_0000;

/// The number of bits of a code value.
pub const WORD_BITS: usize = 60;

/// The weight of a model entry for the flag that goes before every byte:
/// zero for "a byte follows", one for "the stream ends".
pub const FLAG_ZEROS: Count = 100;

/// The number of contexts of the byte model.
pub const CONTEXTS: usize = 0x1_0000;

/// The state of an encoder: the bytes it has written, the bits of the
/// unfinished byte as a number and their count, the number of bits held
/// back, and the interval as its lower end and its size.
pub struct EncView {
    pub bytes: Seq<u8>,
    pub buf: int,
    pub bits: nat,
    pub pending: nat,
    pub low: int,
    pub range: int,
}

/// The encoder can code a bit in this state.
pub open spec fn enc_ok(v: EncView) -> bool {
    &&& v.bits < 8
    &&& 0 <= v.buf < 256
    &&& QUARTER < v.range <= HALF
    &&& 0 <= v.low
    &&& v.low + v.range <= 2 * HALF
}

/// The state after `bit` went to the output.
pub open spec fn put_bit(v: EncView, bit: int) -> EncView {
    if v.bits + 1 == 8 {
        EncView { bytes: v.bytes.push(((2 * v.buf + bit) % 256) as u8), buf: 0, bits: 0, ..v }
    } else {
        EncView { buf: (2 * v.buf + bit) % 256, bits: v.bits + 1, ..v }
    }
}

/// The state after `n` copies of `bit` went to the output.
pub open spec fn put_run(v: EncView, bit: int, n: nat) -> EncView
    decreases n,
{
    if n == 0 {
        v
    } else {
        put_bit(put_run(v, bit, (n - 1) as nat), bit)
    }
}

/// The state after `bit` was settled: it goes to the output, and after it
/// as many opposite bits as were held back.
pub open spec fn settled(v: EncView, bit: int) -> EncView {
    EncView { pending: 0, ..put_run(put_bit(v, bit), 1 - bit, v.pending) }
}

/// The state after the interval was doubled until it covers more than a
/// quarter of the code space.
pub open spec fn scaled(v: EncView) -> EncView
    decreases HALF - v.range,
{
    if 1 <= v.range <= QUARTER {
        if v.low + v.range <= HALF {
            scaled(EncView { low: 2 * v.low, range: 2 * v.range, ..settled(v, 0) })
        } else if HALF <= v.low {
            scaled(EncView { low: 2 * (v.low - HALF), range: 2 * v.range, ..settled(v, 1) })
        } else {
            scaled(
                EncView {
                    low: 2 * (v.low - QUARTER),
                    range: 2 * v.range,
                    pending: v.pending + 1,
                    ..v
                },
            )
        }
    } else {
        v
    }
}

/// The less probable bit under the counts `c0` of zeros and `c1` of ones.
pub open spec fn lps(c0: int, c1: int) -> int {
    if c0 < c1 {
        0
    } else {
        1
    }
}

/// The part of an interval of size `range` that the less probable bit
/// takes.
pub open spec fn lps_range(range: int, c0: int, c1: int) -> int {
    (range / (c0 + c1)) * if c0 < c1 {
        c0
    } else {
        c1
    }
}

/// The state after `bit` was coded with the counts `c0` and `c1`.
pub open spec fn coded(v: EncView, bit: int, c0: int, c1: int) -> EncView {
    if bit == lps(c0, c1) {
        scaled(
            EncView {
                low: v.low + v.range - lps_range(v.range, c0, c1),
                range: lps_range(v.range, c0, c1),
                ..v
            },
        )
    } else {
        scaled(EncView { range: v.range - lps_range(v.range, c0, c1), ..v })
    }
}

/// The state after the first `n` bits of `byte` were coded with even
/// counts.
pub open spec fn coded_byte(v: EncView, byte: u8, n: nat) -> EncView
    decreases n,
{
    if n == 0 {
        v
    } else {
        coded(coded_byte(v, byte, (n - 1) as nat), if byte_bit(byte, n - 1) { 1 } else { 0 }, 1, 1)
    }
}

/// The state after the `n` most significant of the sixty bits of the lower
/// end were settled.
pub open spec fn flushed_low(v: EncView, n: nat) -> EncView
    decreases n,
{
    if n == 0 {
        v
    } else {
        let w = flushed_low(v, (n - 1) as nat);
        EncView { low: (2 * w.low) % 0x1_0000_0000_0000_0000, ..settled(w, (w.low / (HALF as int)) % 2) }
    }
}

/// The state after the unfinished byte, if there is one, was written, its
/// bits being the lowest of the byte.
pub open spec fn byte_flushed(v: EncView) -> EncView {
    if v.bits > 0 {
        EncView { bytes: v.bytes.push(v.buf as u8), buf: 0, bits: 0, ..v }
    } else {
        v
    }
}

/// The state after the stream was finished: the lower end is written out,
/// two zero bits follow, and the unfinished byte is written.
pub open spec fn finished(v: EncView) -> EncView {
    byte_flushed(settled(settled(flushed_low(v, WORD_BITS as nat), 0), 0))
}

/// Putting bits to the output changes neither the interval nor the number
/// of bits held back, and keeps the unfinished byte in order.
pub proof fn lemma_put_run(v: EncView, bit: int, n: nat)
    requires
        v.bits < 8,
        0 <= v.buf < 256,
        0 <= bit <= 1,
    ensures
        put_run(v, bit, n).bits < 8,
        0 <= put_run(v, bit, n).buf < 256,
        put_run(v, bit, n).low == v.low,
        put_run(v, bit, n).range == v.range,
        put_run(v, bit, n).pending == v.pending,
    decreases n,
{
    if n > 0 {
        lemma_put_run(v, bit, (n - 1) as nat);
    }
}

/// Doubling leaves the encoder able to code, and holds back at most one
/// more bit for every doubling.
pub proof fn lemma_scaled(v: EncView)
    requires
        v.bits < 8,
        0 <= v.buf < 256,
        1 <= v.range <= HALF,
        0 <= v.low,
        v.low + v.range <= 2 * HALF,
    ensures
        enc_ok(scaled(v)),
        scaled(v).pending + (HALF - scaled(v).range) <= v.pending + (HALF - v.range),
    decreases HALF - v.range,
{
    if v.range <= QUARTER {
        if v.low + v.range <= HALF {
            lemma_put_run(put_bit(v, 0), 1, v.pending);
            lemma_scaled(EncView { low: 2 * v.low, range: 2 * v.range, ..settled(v, 0) });
        } else if HALF <= v.low {
            lemma_put_run(put_bit(v, 1), 0, v.pending);
            lemma_scaled(
                EncView { low: 2 * (v.low - HALF), range: 2 * v.range, ..settled(v, 1) },
            );
        } else {
            lemma_scaled(
                EncView {
                    low: 2 * (v.low - QUARTER),
                    range: 2 * v.range,
                    pending: v.pending + 1,
                    ..v
                },
            );
        }
    }
}

/// The less probable bit takes at least one code value, where its count is
/// not zero, and at most half of the interval.
pub proof fn lemma_lps_range(range: int, c0: int, c1: int)
    requires
        QUARTER < range <= HALF,
        0 <= c0 < COUNT_LIMIT,
        0 <= c1 < COUNT_LIMIT,
        0 < c0 + c1,
    ensures
        0 <= lps_range(range, c0, c1),
        2 * lps_range(range, c0, c1) <= range,
        (if c0 < c1 { c0 } else { c1 }) > 0 ==> lps_range(range, c0, c1) >= 1,
        range / (c0 + c1) >= 1,
        range / (c0 + c1) <= range,
        lps_range(range, c0, c1) <= u64::MAX,
{
    let total = c0 + c1;
    let r = range / total;
    let c = if c0 < c1 { c0 } else { c1 };
    vstd::arithmetic::div_mod::lemma_fundamental_div_mod(range, total);
    vstd::arithmetic::div_mod::lemma_mod_bound(range, total);
    assert(total * r <= range);
    assert(r >= 1) by (nonlinear_arith)
        requires
            total * r + total > range,
            range > 0x0400_0000_0000_0000,
            0 < total < 0x8000_0000,
    ;
    assert(r <= range) by (nonlinear_arith)
        requires
            total * r <= range,
            total >= 1,
            r >= 1,
    ;
    assert(2 * (r * c) <= range) by (nonlinear_arith)
        requires
            total * r <= range,
            2 * c <= total,
            r >= 0,
            c >= 0,
    ;
    assert(r * c >= 0) by (nonlinear_arith)
        requires
            r >= 0,
            c >= 0,
    ;
    if c > 0 {
        assert(r * c >= 1) by (nonlinear_arith)
            requires
                r >= 1,
                c >= 1,
        ;
    }
}

/// Coding a bit whose count is not zero leaves the encoder able to code,
/// and holds back fewer bits more than the code space has values.
pub proof fn lemma_coded(v: EncView, bit: int, c0: int, c1: int)
    requires
        enc_ok(v),
        0 <= bit <= 1,
        0 <= c0 < COUNT_LIMIT,
        0 <= c1 < COUNT_LIMIT,
        bit == 0 ==> c0 > 0,
        bit == 1 ==> c1 > 0,
    ensures
        enc_ok(coded(v, bit, c0, c1)),
        coded(v, bit, c0, c1).pending <= v.pending + HALF,
{
    lemma_lps_range(v.range, c0, c1);
    if bit == lps(c0, c1) {
        lemma_scaled(
            EncView {
                low: v.low + v.range - lps_range(v.range, c0, c1),
                range: lps_range(v.range, c0, c1),
                ..v
            },
        );
    } else {
        lemma_scaled(EncView { range: v.range - lps_range(v.range, c0, c1), ..v });
    }
}

/// An encoder for single bits.
pub struct Encoder {
    inner: Vec<u8>,
    out_buf: u8,
    out_bits: usize,
    out_pending: u128,
    range: Word,
    low: Word,
}

impl Encoder {
    /// The state of the encoder.
    pub closed spec fn view(&self) -> EncView {
        EncView {
            bytes: self.inner@,
            buf: self.out_buf as int,
            bits: self.out_bits as nat,
            pending: self.out_pending as nat,
            low: self.low as int,
            range: self.range as int,
        }
    }

    /// The encoder can code a bit.
    pub open spec fn wf(&self) -> bool {
        enc_ok(self@)
    }

    /// Create an encoder that appends to `writer`.
    pub fn new(writer: Vec<u8>) -> (e: Encoder)
        ensures
            e.wf(),
            e@ == (EncView {
                bytes: writer@,
                buf: 0,
                bits: 0,
                pending: 0,
                low: 0,
                range: HALF as int,
            }),
    {
        Encoder { inner: writer, out_buf: 0, out_bits: 0, out_pending: 0, low: 0, range: HALF }
    }

    /// Write the finished byte to the buffer.
    fn out_flush(&mut self) -> (r: Result<(), Error>)
        ensures
            r is Ok,
            final(self)@ == (EncView {
                bytes: old(self)@.bytes.push(old(self)@.buf as u8),
                buf: 0,
                bits: 0,
                ..old(self)@
            }),
    {
        self.inner.push(self.out_buf);
        self.out_buf = 0;
        self.out_bits = 0;
        Ok(())
    }

    /// Put one bit to the output.
    fn out_bit(&mut self, bit: u8) -> (r: Result<(), Error>)
        requires
            bit <= 1,
            old(self)@.bits < 8,
        ensures
            r is Ok,
            final(self)@ == put_bit(old(self)@, bit as int),
            final(self)@.bits < 8,
    {
        let buf = self.out_buf;
        assert((buf << 1) | bit == (2 * buf + bit) % 256) by (bit_vector)
            requires
                bit <= 1,
        ;
        self.out_buf = (self.out_buf << 1) | bit;
        self.out_bits += 1;
        if self.out_bits == 8 {
            let _ = self.out_flush();
        }
        Ok(())
    }

    /// Settle `bit`: put it to the output, and after it as many opposite
    /// bits as are held back.
    fn out_plus_pending(&mut self, bit: Bit) -> (r: Result<(), Error>)
        requires
            bit <= 1,
            old(self)@.bits < 8,
            0 <= old(self)@.buf < 256,
        ensures
            r is Ok,
            final(self)@ == settled(old(self)@, bit as int),
            final(self)@.bits < 8,
    {
        let _ = self.out_bit(bit as u8);
        let nbit = (1 - bit) as u8;
        let ghost total = self.out_pending as nat;
        let ghost first = self@;
        while self.out_pending > 0
            invariant
                nbit <= 1,
                self.out_pending <= total,
                first.pending == total,
                first.bits < 8,
                0 <= first.buf < 256,
                self@ == (EncView {
                    pending: self.out_pending as nat,
                    ..put_run(first, nbit as int, (total - self.out_pending) as nat)
                }),
            decreases self.out_pending,
        {
            proof {
                lemma_put_run(first, nbit as int, (total - self.out_pending) as nat);
            }
            let _ = self.out_bit(nbit);
            self.out_pending -= 1;
        }
        proof {
            lemma_put_run(first, nbit as int, total);
        }
        Ok(())
    }

    /// Encode a byte, using a probability of 0.5 for ones and zeros alike.
    /// This can be used to encode literals which don't have estimated
    /// probabilities.
    pub fn encode_byte(&mut self, byte: u8) -> (r: Result<(), Error>)
        requires
            old(self).wf(),
            old(self)@.pending + 8 * HALF <= u128::MAX,
        ensures
            r is Ok,
            final(self).wf(),
            final(self)@ == coded_byte(old(self)@, byte, 8),
            final(self)@.pending <= old(self)@.pending + 8 * HALF,
    {
        let mut mask: u8 = 0x80;
        let mut i: usize = 0;
        while i < 8
            invariant
                i <= 8,
                i < 8 ==> mask == weight(i as u8),
                self.wf(),
                self@ == coded_byte(old(self)@, byte, i as nat),
                self@.pending <= old(self)@.pending + i * HALF,
                old(self)@.pending + 8 * HALF <= u128::MAX,
            decreases 8 - i,
        {
            proof {
                lemma_mask_ops(byte, i as u8);
                lemma_coded(self@, if byte_bit(byte, i as int) { 1 } else { 0 }, 1, 1);
            }
            let bit: Bit = if byte & mask != 0 {
                1
            } else {
                0
            };
            let _ = self.encode(bit, 1, 1);
            mask = mask >> 1;
            i += 1;
        }
        Ok(())
    }

    /// Encode a single bit.  `c0` gives the count of zeros and `c1` the
    /// number of ones in the model.  The count of the bit that is coded
    /// must not be zero.
    pub fn encode(&mut self, bit: Bit, c0: Count, c1: Count) -> (r: Result<(), Error>)
        requires
            old(self).wf(),
            bit <= 1,
            c0 < COUNT_LIMIT,
            c1 < COUNT_LIMIT,
            bit == 0 ==> c0 > 0,
            bit == 1 ==> c1 > 0,
            old(self)@.pending + HALF <= u128::MAX,
        ensures
            r is Ok,
            final(self).wf(),
            final(self)@ == coded(old(self)@, bit as int, c0 as int, c1 as int),
            final(self)@.pending <= old(self)@.pending + HALF,
    {
        proof {
            lemma_lps_range(self.range as int, c0 as int, c1 as int);
            lemma_coded(self@, bit as int, c0 as int, c1 as int);
        }
        let (lps, c_lps): (Bit, Count) = if c0 < c1 {
            (0, c0)
        } else {
            (1, c1)
        };
        let r = self.range / ((c0 + c1) as Word);
        let r_lps = r * (c_lps as Word);
        if bit == lps {
            self.low = self.low + self.range - r_lps;
            self.range = r_lps;
        } else {
            self.range = self.range - r_lps;
        }
        let ghost start = self@;
        proof {
            lemma_scaled(start);
        }

        while self.range <= QUARTER
            invariant
                self@.bits < 8,
                0 <= self@.buf < 256,
                1 <= self.range <= HALF,
                self.low + self.range <= 2 * HALF,
                scaled(self@) == scaled(start),
                self@.pending + (HALF - self.range) <= start.pending + (HALF - start.range),
                start.pending + HALF <= u128::MAX,
                start.range >= 1,
            decreases HALF - self.range,
        {
            let ghost here = self@;
            if self.low + self.range <= HALF {
                let _ = self.out_plus_pending(0);
                proof {
                    lemma_put_run(put_bit(here, 0), 1, here.pending);
                }
            } else if HALF <= self.low {
                let _ = self.out_plus_pending(1);
                proof {
                    lemma_put_run(put_bit(here, 1), 0, here.pending);
                }
                self.low = self.low - HALF;
            } else {
                self.out_pending += 1;
                self.low = self.low - QUARTER;
            }
            self.low = 2 * self.low;
            self.range = 2 * self.range;
        }

        Ok(())
    }

    /// Finish the encoder by writing all pending output to the buffer.
    pub fn finish(&mut self) -> (r: Result<(), Error>)
        requires
            old(self).wf(),
        ensures
            r is Ok,
            final(self)@ == finished(old(self)@),
    {
        // Output the contents of the lower end.
        let mut i: usize = 0;
        while i < WORD_BITS
            invariant
                i <= WORD_BITS,
                self@.bits < 8,
                0 <= self@.buf < 256,
                self@ == flushed_low(old(self)@, i as nat),
            decreases WORD_BITS - i,
        {
            let low = self.low;
            assert((low >> 59) & 1 == (low / 0x0800_0000_0000_0000) % 2) by (bit_vector);
            assert(low << 1 == (2 * low) % 0x1_0000_0000_0000_0000) by (bit_vector);
            assert((low >> 59) & 1 <= 1) by (bit_vector);
            let ghost here = self@;
            let bit = ((self.low >> 59) & 1) as Bit;
            let _ = self.out_plus_pending(bit);
            proof {
                lemma_put_run(put_bit(here, bit as int), 1 - bit, here.pending);
            }
            self.low = self.low << 1;
            i += 1;
        }

        // Two more zero bits make sure that the decoder finds the last bit.
        let ghost here = self@;
        let _ = self.out_plus_pending(0);
        proof {
            lemma_put_run(put_bit(here, 0), 1, here.pending);
        }
        let ghost here = self@;
        let _ = self.out_plus_pending(0);
        proof {
            lemma_put_run(put_bit(here, 0), 1, here.pending);
        }

        if self.out_bits > 0 {
            let _ = self.out_flush();
        }
        Ok(())
    }

    /// Extract the buffer, consuming `self`.
    pub fn into_inner(self) -> (inner: Vec<u8>)
        ensures
            inner@ == self@.bytes,
    {
        self.inner
    }
}

/// The state of a decoder: the input that it has not read, the bits of the
/// current byte that it has not used, as the byte shifted up, and their
/// count, the size of the interval and the code value within it.
pub struct DecView {
    pub input: Seq<u8>,
    pub buf: int,
    pub bits: nat,
    pub range: int,
    pub d: int,
}

/// The number of bits that the decoder can still take from its input.
pub open spec fn avail(v: DecView) -> nat {
    8 * v.input.len() + v.bits
}

/// The decoder can decode a bit in this state.
pub open spec fn dec_ok(v: DecView) -> bool {
    &&& v.bits <= 8
    &&& 0 <= v.buf < 256
    &&& QUARTER < v.range <= HALF
    &&& 0 <= v.d <= u64::MAX
}

/// The next bit of the input, or `None` at its end.
pub open spec fn next_bit(v: DecView) -> Option<int> {
    if v.bits > 0 {
        Some(v.buf / 128)
    } else if v.input.len() > 0 {
        Some(v.input[0] as int / 128)
    } else {
        None
    }
}

/// The state after an attempt to take a bit from the input.  At the end of
/// the input the attempt fails, and the buffer counts as full again.
pub open spec fn bit_taken(v: DecView) -> DecView {
    if v.bits > 0 {
        DecView { buf: (2 * v.buf) % 256, bits: (v.bits - 1) as nat, ..v }
    } else if v.input.len() > 0 {
        DecView { input: v.input.skip(1), buf: (2 * v.input[0]) % 256, bits: 7, ..v }
    } else {
        DecView { bits: 8, ..v }
    }
}

/// The state after the interval was doubled, one bit of input being taken
/// into the code value per doubling, until it covers more than a quarter of
/// the code space or the input ends.  Code values wrap at 64 bits; in a
/// stream that the encoder made they never do.
pub open spec fn dec_scaled(v: DecView) -> DecView
    decreases avail(v),
{
    if 0 <= v.range <= QUARTER {
        match next_bit(v) {
            Some(bit) => dec_scaled(
                DecView {
                    range: 2 * v.range,
                    d: (2 * v.d + bit) % 0x1_0000_0000_0000_0000,
                    ..bit_taken(v)
                },
            ),
            None => DecView { range: 2 * v.range, ..bit_taken(v) },
        }
    } else {
        v
    }
}

/// Whether the doubling reaches the end of the input.
pub open spec fn dec_starved(v: DecView) -> bool
    decreases avail(v),
{
    if 0 <= v.range <= QUARTER {
        match next_bit(v) {
            Some(bit) => dec_starved(
                DecView {
                    range: 2 * v.range,
                    d: (2 * v.d + bit) % 0x1_0000_0000_0000_0000,
                    ..bit_taken(v)
                },
            ),
            None => true,
        }
    } else {
        false
    }
}

/// Whether the code value stands for the less probable bit.
pub open spec fn is_lps(v: DecView, c0: int, c1: int) -> bool {
    v.d >= v.range - lps_range(v.range, c0, c1)
}

/// The bit that the decoder finds under the counts `c0` and `c1`.
pub open spec fn dec_bit(v: DecView, c0: int, c1: int) -> int {
    if is_lps(v, c0, c1) {
        lps(c0, c1)
    } else {
        1 - lps(c0, c1)
    }
}

/// The state after the interval was narrowed to the part of the bit found.
pub open spec fn dec_narrowed(v: DecView, c0: int, c1: int) -> DecView {
    if is_lps(v, c0, c1) {
        DecView {
            d: v.d - (v.range - lps_range(v.range, c0, c1)),
            range: lps_range(v.range, c0, c1),
            ..v
        }
    } else {
        DecView { range: v.range - lps_range(v.range, c0, c1), ..v }
    }
}

/// The state after a bit was decoded, or after the attempt failed.
pub open spec fn dec_stepped(v: DecView, c0: int, c1: int) -> DecView {
    dec_scaled(dec_narrowed(v, c0, c1))
}

/// Whether an attempt to decode a bit reaches the end of the input.
pub open spec fn dec_fails(v: DecView, c0: int, c1: int) -> bool {
    dec_starved(dec_narrowed(v, c0, c1))
}

/// Doubling that does not reach the end of the input leaves the decoder
/// able to decode; it takes bits from the input, or else changes nothing.
pub proof fn lemma_dec_scaled(v: DecView)
    requires
        v.bits <= 8,
        0 <= v.buf < 256,
        0 <= v.range <= HALF,
        0 <= v.d <= u64::MAX,
    ensures
        !dec_starved(v) ==> dec_ok(dec_scaled(v)),
        avail(dec_scaled(v)) <= avail(v) || dec_starved(v),
        !dec_starved(v) && avail(dec_scaled(v)) == avail(v) ==> dec_scaled(v) == v,
    decreases avail(v),
{
    if v.range <= QUARTER {
        match next_bit(v) {
            Some(bit) => {
                lemma_dec_scaled(
                    DecView {
                        range: 2 * v.range,
                        d: (2 * v.d + bit) % 0x1_0000_0000_0000_0000,
                        ..bit_taken(v)
                    },
                );
            },
            None => {},
        }
    }
}

/// A successful attempt to decode a bit leaves the decoder able to decode;
/// where both counts are positive it takes bits from the input or makes the
/// interval smaller.
pub proof fn lemma_dec_stepped(v: DecView, c0: int, c1: int)
    requires
        dec_ok(v),
        0 <= c0 < COUNT_LIMIT,
        0 <= c1 < COUNT_LIMIT,
        0 < c0 + c1,
    ensures
        0 <= dec_bit(v, c0, c1) <= 1,
        !dec_fails(v, c0, c1) ==> dec_ok(dec_stepped(v, c0, c1)) && avail(
            dec_stepped(v, c0, c1),
        ) <= avail(v),
        !dec_fails(v, c0, c1) && c0 > 0 && c1 > 0 && avail(dec_stepped(v, c0, c1)) == avail(v)
            ==> dec_stepped(v, c0, c1).range < v.range,
{
    lemma_lps_range(v.range, c0, c1);
    lemma_dec_scaled(dec_narrowed(v, c0, c1));
}

/// A decoder for single bits.
pub struct Decoder<'a> {
    inner: &'a [u8],
    pos: usize,
    in_buf: u8,
    in_bits: usize,
    range: Word,
    d: Word,
}

impl<'a> Decoder<'a> {
    /// The state of the decoder.
    pub closed spec fn view(&self) -> DecView {
        DecView {
            input: self.inner@.skip(self.pos as int),
            buf: self.in_buf as int,
            bits: self.in_bits as nat,
            range: self.range as int,
            d: self.d as int,
        }
    }

    /// The decoder's representation is consistent.
    pub closed spec fn inv(&self) -> bool {
        self.pos <= self.inner@.len() && self.in_bits <= 8
    }

    /// The decoder can decode a bit.
    pub open spec fn wf(&self) -> bool {
        self.inv() && dec_ok(self@)
    }

    /// Create a new decoder for the data in `reader`.  This reads a word of
    /// data, and fails where the data is shorter.
    pub fn new(reader: &'a [u8]) -> (r: Result<Decoder<'a>, Error>)
        ensures
            match r {
                Ok(dec) => !primed_starved(reader@) && dec.wf() && dec@ == primed(reader@),
                Err(e) => primed_starved(reader@) && e == Error::UnexpectedEof,
            },
    {
        let mut d = Decoder { inner: reader, pos: 0, in_buf: 0, in_bits: 0, d: 0, range: HALF };
        let mut i: usize = 0;
        proof {
            assert(reader@.skip(0) =~= reader@);
        }
        while i < WORD_BITS
            invariant
                i <= WORD_BITS,
                d.inv(),
                0 <= d@.buf < 256,
                d@.range == HALF,
                unprimed(d@, (WORD_BITS - i) as nat) == unprimed(
                    start_view(reader@),
                    WORD_BITS as nat,
                ),
                unprimed_starved(d@, (WORD_BITS - i) as nat) == unprimed_starved(
                    start_view(reader@),
                    WORD_BITS as nat,
                ),
            decreases WORD_BITS - i,
        {
            let word = d.d;
            match d.get_bit() {
                Ok(bit) => {
                    assert((word << 1) | (bit as u64) == (2 * word + bit as u64)
                        % 0x1_0000_0000_0000_0000) by (bit_vector)
                        requires
                            bit <= 1,
                    ;
                    d.d = (d.d << 1) | (bit as Word);
                },
                Err(e) => {
                    return Err(e);
                },
            }
            i += 1;
        }
        Ok(d)
    }

    /// Take the next bit from the input.
    fn get_bit(&mut self) -> (r: Result<Bit, Error>)
        requires
            old(self).inv(),
        ensures
            final(self).inv(),
            final(self)@ == bit_taken(old(self)@),
            match next_bit(old(self)@) {
                Some(bit) => r == Ok::<Bit, Error>(bit as usize) && bit <= 1,
                None => r == Err::<Bit, Error>(Error::UnexpectedEof),
            },
    {
        if self.in_bits == 0 {
            self.in_bits = 8;
            if self.pos >= self.inner.len() {
                return Err(Error::UnexpectedEof);
            }
            proof {
                assert(self.inner@.skip(self.pos as int)[0] == self.inner@[self.pos as int]);
                assert(self.inner@.skip(self.pos as int).skip(1) =~= self.inner@.skip(
                    self.pos + 1,
                ));
            }
            self.in_buf = self.inner[self.pos];
            self.pos += 1;
        }
        self.in_bits -= 1;
        let buf = self.in_buf;
        assert(buf >> 7 == buf / 128 && buf >> 7 <= 1 && buf << 1 == (2 * buf) % 256)
            by (bit_vector);
        let bit = (self.in_buf >> 7) as Bit;
        self.in_buf = self.in_buf << 1;
        Ok(bit)
    }

    /// Decode a byte from the compressed stream, using a probability of 0.5
    /// for ones and zeros alike.  This can be used to extract literal bytes
    /// from the stream when their probability is not known.
    pub fn decode_byte(&mut self) -> (r: Result<u8, Error>)
        requires
            old(self).wf(),
        ensures
            match r {
                Ok(b) => !byte_fails(old(self)@, 8) && final(self).wf() && final(self)@
                    == byte_stepped(old(self)@, 8) && b == byte_found(old(self)@, 8),
                Err(e) => byte_fails(old(self)@, 8) && e == Error::UnexpectedEof,
            },
    {
        let mut result: u8 = 0;
        let mut i: usize = 0;
        while i < 8
            invariant
                i <= 8,
                self.wf(),
                !byte_fails(old(self)@, i as nat),
                self@ == byte_stepped(old(self)@, i as nat),
                result == byte_found(old(self)@, i as nat),
            decreases 8 - i,
        {
            proof {
                lemma_dec_stepped(self@, 1, 1);
            }
            let bit = match self.decode(1, 1) {
                Ok(bit) => bit,
                Err(e) => {
                    assert(byte_fails(old(self)@, (i + 1) as nat));
                    proof {
                        lemma_byte_fails(old(self)@, (i + 1) as nat, 8);
                    }
                    return Err(e);
                },
            };
            let b = bit as u8;
            assert((result << 1) | b == (2 * result + b) % 256) by (bit_vector)
                requires
                    b <= 1,
            ;
            result = (result << 1) | b;
            i += 1;
        }
        Ok(result)
    }

    /// Decode a single bit from the input. `c0` is the count of zeros, `c1`
    /// the count of ones in the model.  Fails where the input ends before
    /// the interval is wide enough again; the decoder cannot be used after
    /// that.
    pub fn decode(&mut self, c0: Count, c1: Count) -> (r: Result<Bit, Error>)
        requires
            old(self).wf(),
            c0 < COUNT_LIMIT,
            c1 < COUNT_LIMIT,
            0 < c0 + c1 < COUNT_LIMIT,
        ensures
            final(self).inv(),
            final(self)@ == dec_stepped(old(self)@, c0 as int, c1 as int),
            match r {
                Ok(bit) => !dec_fails(old(self)@, c0 as int, c1 as int) && final(self).wf() && bit
                    == dec_bit(old(self)@, c0 as int, c1 as int),
                Err(e) => dec_fails(old(self)@, c0 as int, c1 as int) && e
                    == Error::UnexpectedEof,
            },
    {
        proof {
            lemma_lps_range(self.range as int, c0 as int, c1 as int);
            lemma_dec_stepped(self@, c0 as int, c1 as int);
        }
        let (lps, c_lps): (Bit, Count) = if c0 < c1 {
            (0, c0)
        } else {
            (1, c1)
        };
        let r = self.range / ((c0 + c1) as Word);
        let r_lps = r * (c_lps as Word);

        let bit;
        if self.d >= self.range - r_lps {
            bit = lps;
            self.d = self.d - (self.range - r_lps);
            self.range = r_lps;
        } else {
            bit = 1 - lps;
            self.range = self.range - r_lps;
        }
        let ghost start = self@;
        while self.range <= QUARTER
            invariant
                self.inv(),
                0 <= self@.buf < 256,
                0 <= self.range <= HALF,
                start == dec_narrowed(old(self)@, c0 as int, c1 as int),
                dec_scaled(self@) == dec_scaled(start),
                dec_starved(self@) == dec_starved(start),
            decreases avail(self@),
        {
            let word = self.d;
            match self.get_bit() {
                Ok(b) => {
                    assert((word << 1) | (b as u64) == (2 * word + b as u64)
                        % 0x1_0000_0000_0000_0000) by (bit_vector)
                        requires
                            b <= 1,
                    ;
                    self.range = 2 * self.range;
                    self.d = (self.d << 1) | (b as Word);
                },
                Err(e) => {
                    self.range = 2 * self.range;
                    return Err(e);
                },
            }
        }

        Ok(bit)
    }
}

/// The state of a decoder before it has read anything of `input`.
pub open spec fn start_view(input: Seq<u8>) -> DecView {
    DecView { input: input, buf: 0, bits: 0, range: HALF as int, d: 0 }
}

/// The state after `n` bits were taken into the code value, or after the
/// attempt to take them failed.
pub open spec fn unprimed(v: DecView, n: nat) -> DecView
    decreases n,
{
    if n == 0 {
        v
    } else {
        match next_bit(v) {
            Some(bit) => unprimed(
                DecView { d: (2 * v.d + bit) % 0x1_0000_0000_0000_0000, ..bit_taken(v) },
                (n - 1) as nat,
            ),
            None => bit_taken(v),
        }
    }
}

/// Whether the input ends before `n` bits were taken into the code value.
pub open spec fn unprimed_starved(v: DecView, n: nat) -> bool
    decreases n,
{
    if n == 0 {
        false
    } else {
        match next_bit(v) {
            Some(bit) => unprimed_starved(
                DecView { d: (2 * v.d + bit) % 0x1_0000_0000_0000_0000, ..bit_taken(v) },
                (n - 1) as nat,
            ),
            None => true,
        }
    }
}

/// The state of a decoder that has read its first word of `input`.
pub open spec fn primed(input: Seq<u8>) -> DecView {
    unprimed(start_view(input), WORD_BITS as nat)
}

/// Whether `input` is too short for the first word.
pub open spec fn primed_starved(input: Seq<u8>) -> bool {
    unprimed_starved(start_view(input), WORD_BITS as nat)
}

/// Whether decoding `n` bits with even counts reaches the end of the input.
pub open spec fn byte_fails(v: DecView, n: nat) -> bool
    decreases n,
{
    if n == 0 {
        false
    } else {
        byte_fails(v, (n - 1) as nat) || dec_fails(byte_stepped(v, (n - 1) as nat), 1, 1)
    }
}

/// The state after `n` bits were decoded with even counts.
pub open spec fn byte_stepped(v: DecView, n: nat) -> DecView
    decreases n,
{
    if n == 0 {
        v
    } else {
        dec_stepped(byte_stepped(v, (n - 1) as nat), 1, 1)
    }
}

/// The number that `n` bits decoded with even counts spell, most
/// significant bit first.
pub open spec fn byte_found(v: DecView, n: nat) -> int
    decreases n,
{
    if n == 0 {
        0
    } else {
        (2 * byte_found(v, (n - 1) as nat) + dec_bit(byte_stepped(v, (n - 1) as nat), 1, 1)) % 256
    }
}

/// A failure within the first bits is a failure of the whole.
pub proof fn lemma_byte_fails(v: DecView, n: nat, m: nat)
    requires
        n <= m,
        byte_fails(v, n),
    ensures
        byte_fails(v, m),
    decreases m,
{
    if n < m {
        lemma_byte_fails(v, n, (m - 1) as nat);
    }
}

/// The counts of a model entry after one more occurrence of `bit`.  The
/// counts stop growing where their sum would reach the limit.
pub open spec fn bumped(c: (Count, Count), bit: int) -> (Count, Count) {
    if c.0 + c.1 + 1 >= COUNT_LIMIT {
        c
    } else if bit == 0 {
        ((c.0 + 1) as Count, c.1)
    } else {
        (c.0, (c.1 + 1) as Count)
    }
}

/// The context after `bit`: the last sixteen bits.
pub open spec fn shifted(context: u16, bit: int) -> u16 {
    ((2 * context + bit) % 0x1_0000) as u16
}

/// A model has an entry for every context, and every entry has positive
/// counts whose sum is below the limit.
pub open spec fn model_ok(model: Seq<(Count, Count)>) -> bool {
    &&& model.len() == CONTEXTS
    &&& forall|i: int|
        0 <= i < CONTEXTS ==> (#[trigger] model[i]).0 >= 1 && model[i].1 >= 1 && model[i].0
            + model[i].1 < COUNT_LIMIT
}

/// The model in which every context has seen one zero and one one.
pub open spec fn fresh_model() -> Seq<(Count, Count)> {
    Seq::new(CONTEXTS as nat, |i: int| (1u32, 1u32))
}

/// Update the model entry of `context` for one more occurrence of `bit`,
/// and return the next context.
fn model_step(model: &mut Vec<(Count, Count)>, context: u16, bit: Bit) -> (next: u16)
    requires
        model_ok(old(model)@),
        bit <= 1,
    ensures
        model_ok(final(model)@),
        final(model)@ == old(model)@.update(
            context as int,
            bumped(old(model)@[context as int], bit as int),
        ),
        next == shifted(context, bit as int),
{
    let c = model[context as usize];
    if c.0 + c.1 + 1 < COUNT_LIMIT {
        if bit == 0 {
            model.set(context as usize, (c.0 + 1, c.1));
        } else {
            model.set(context as usize, (c.0, c.1 + 1));
        }
    }
    proof {
        assert(final(model)@ =~= old(model)@.update(
            context as int,
            bumped(old(model)@[context as int], bit as int),
        ));
    }
    let b = bit as u16;
    assert((context << 1) | b == (2 * context + b) % 0x1_0000) by (bit_vector)
        requires
            b <= 1,
    ;
    (context << 1) | b
}

/// A model for a stream that starts.
fn new_model() -> (model: Vec<(Count, Count)>)
    ensures
        model@ == fresh_model(),
        model_ok(model@),
{
    let mut model: Vec<(Count, Count)> = Vec::new();
    let mut i: usize = 0;
    while i < CONTEXTS
        invariant
            i <= CONTEXTS,
            model@.len() == i,
            forall|j: int| 0 <= j < i ==> model@[j] == (1u32, 1u32),
        decreases CONTEXTS - i,
    {
        model.push((1, 1));
        i += 1;
    }
    assert(model@ =~= fresh_model());
    model
}

/// The state of a writer: that of its encoder, the model and the context.
pub struct WriterView {
    pub enc: EncView,
    pub model: Seq<(Count, Count)>,
    pub context: u16,
}

/// The state after `bit` was coded in its context.
pub open spec fn bit_written(v: WriterView, bit: int) -> WriterView {
    WriterView {
        enc: coded(
            v.enc,
            bit,
            v.model[v.context as int].0 as int,
            v.model[v.context as int].1 as int,
        ),
        model: v.model.update(v.context as int, bumped(v.model[v.context as int], bit)),
        context: shifted(v.context, bit),
    }
}

/// The state after the flag for "a byte follows" and the first `n` bits of
/// `byte` were coded.
pub open spec fn byte_written(v: WriterView, byte: u8, n: nat) -> WriterView
    decreases n,
{
    if n == 0 {
        WriterView { enc: coded(v.enc, 0, FLAG_ZEROS as int, 1), ..v }
    } else {
        bit_written(
            byte_written(v, byte, (n - 1) as nat),
            if byte_bit(byte, n - 1) {
                1
            } else {
                0
            },
        )
    }
}

/// The state after `bytes` were coded.
pub open spec fn written(v: WriterView, bytes: Seq<u8>) -> WriterView
    decreases bytes.len(),
{
    if bytes.len() == 0 {
        v
    } else {
        byte_written(written(v, bytes.drop_last()), bytes.last(), 8)
    }
}

/// The state after the stream was ended: the flag for "the stream ends" is
/// coded and the encoder finished.
pub open spec fn ended(v: WriterView) -> WriterView {
    WriterView { enc: finished(coded(v.enc, 1, FLAG_ZEROS as int, 1)), ..v }
}

/// Coding a byte keeps encoder and model in order and holds back a bounded
/// number of bits more.
pub proof fn lemma_byte_written(v: WriterView, byte: u8, n: nat)
    requires
        enc_ok(v.enc),
        model_ok(v.model),
    ensures
        enc_ok(byte_written(v, byte, n).enc),
        model_ok(byte_written(v, byte, n).model),
        byte_written(v, byte, n).enc.pending <= v.enc.pending + (n + 1) * HALF,
    decreases n,
{
    if n == 0 {
        lemma_coded(v.enc, 0, FLAG_ZEROS as int, 1);
    } else {
        let w = byte_written(v, byte, (n - 1) as nat);
        lemma_byte_written(v, byte, (n - 1) as nat);
        let bit: int = if byte_bit(byte, n - 1) { 1 } else { 0 };
        let c = w.model[w.context as int];
        lemma_coded(w.enc, bit, c.0 as int, c.1 as int);
        assert((n + 1) * HALF == n * HALF + HALF) by (nonlinear_arith);
        assert(model_ok(bit_written(w, bit).model)) by {
            let m2 = bit_written(w, bit).model;
            assert forall|i: int| 0 <= i < CONTEXTS implies (#[trigger] m2[i]).0 >= 1 && m2[i].1
                >= 1 && m2[i].0 + m2[i].1 < COUNT_LIMIT by {
                assert(w.model[i].0 >= 1);
            }
        }
    }
}

/// A compressor for byte streams: a bit encoder with an adaptive model of
/// order 16.
pub struct Writer {
    encoder: Encoder,
    model: Vec<(Count, Count)>,
    context: u16,
}

impl Writer {
    /// The state of the writer.
    pub closed spec fn view(&self) -> WriterView {
        WriterView { enc: self.encoder@, model: self.model@, context: self.context }
    }

    /// The writer can code a byte.
    pub open spec fn wf(&self) -> bool {
        enc_ok(self@.enc) && model_ok(self@.model)
    }

    /// Create a writer that appends the compressed data to `output`.
    pub fn new(output: Vec<u8>) -> (w: Writer)
        ensures
            w.wf(),
            w@ == (WriterView {
                enc: EncView {
                    bytes: output@,
                    buf: 0,
                    bits: 0,
                    pending: 0,
                    low: 0,
                    range: HALF as int,
                },
                model: fresh_model(),
                context: 0,
            }),
    {
        Writer { encoder: Encoder::new(output), model: new_model(), context: 0 }
    }

    /// Give up the writer for the buffer it wrote to.
    pub fn into_inner(self) -> (inner: Vec<u8>)
        ensures
            inner@ == self@.enc.bytes,
    {
        self.encoder.into_inner()
    }

    /// Compress one byte.
    fn write_byte(&mut self, byte: u8)
        requires
            old(self).wf(),
            old(self)@.enc.pending + 9 * HALF <= u128::MAX,
        ensures
            final(self).wf(),
            final(self)@ == byte_written(old(self)@, byte, 8),
            final(self)@.enc.pending <= old(self)@.enc.pending + 9 * HALF,
    {
        proof {
            lemma_byte_written(self@, byte, 0);
        }
        let _ = self.encoder.encode(0, FLAG_ZEROS, 1);
        let mut mask: u8 = 0x80;
        let mut i: usize = 0;
        while i < 8
            invariant
                i <= 8,
                i < 8 ==> mask == weight(i as u8),
                old(self).wf(),
                self.wf(),
                self@ == byte_written(old(self)@, byte, i as nat),
                old(self)@.enc.pending + 9 * HALF <= u128::MAX,
            decreases 8 - i,
        {
            proof {
                lemma_mask_ops(byte, i as u8);
                lemma_byte_written(old(self)@, byte, i as nat);
                lemma_byte_written(old(self)@, byte, (i + 1) as nat);
                assert((i + 1) * HALF <= 8 * HALF) by (nonlinear_arith)
                    requires
                        i + 1 <= 8,
                ;
            }
            let bit: Bit = if byte & mask != 0 {
                1
            } else {
                0
            };
            let c = self.model[self.context as usize];
            let _ = self.encoder.encode(bit, c.0, c.1);
            self.context = model_step(&mut self.model, self.context, bit);
            mask = mask >> 1;
            i += 1;
        }
        proof {
            lemma_byte_written(old(self)@, byte, 8);
        }
    }

    /// Compress the bytes of `output` and return their number.
    pub fn write(&mut self, output: &[u8]) -> (r: Result<usize, Error>)
        requires
            old(self).wf(),
            old(self)@.enc.pending + 9 * HALF * output@.len() <= u128::MAX,
        ensures
            final(self).wf(),
            r == Ok::<usize, Error>(output@.len() as usize),
            final(self)@ == written(old(self)@, output@),
            final(self)@.enc.pending <= old(self)@.enc.pending + 9 * HALF * output@.len(),
    {
        let mut i: usize = 0;
        while i < output.len()
            invariant
                i <= output@.len(),
                self.wf(),
                self@ == written(old(self)@, output@.take(i as int)),
                self@.enc.pending <= old(self)@.enc.pending + 9 * HALF * i,
                old(self)@.enc.pending + 9 * HALF * output@.len() <= u128::MAX,
            decreases output@.len() - i,
        {
            proof {
                assert(9 * HALF * (i + 1) <= 9 * HALF * output@.len()) by (nonlinear_arith)
                    requires
                        i + 1 <= output@.len(),
                ;
                assert(9 * HALF * (i + 1) == 9 * HALF * i + 9 * HALF) by (nonlinear_arith);
                assert(output@.take(i + 1).drop_last() =~= output@.take(i as int));
            }
            self.write_byte(output[i]);
            i += 1;
        }
        proof {
            assert(output@.take(i as int) =~= output@);
        }
        Ok(output.len())
    }

    /// End the stream and write all pending output to the buffer.
    pub fn flush(&mut self) -> (r: Result<(), Error>)
        requires
            old(self).wf(),
            old(self)@.enc.pending + HALF <= u128::MAX,
        ensures
            r is Ok,
            final(self)@ == ended(old(self)@),
    {
        proof {
            lemma_coded(self@.enc, 1, FLAG_ZEROS as int, 1);
        }
        let _ = self.encoder.encode(1, FLAG_ZEROS, 1);
        let _ = self.encoder.finish();
        Ok(())
    }
}

/// Compress `input` and append the compressed data to `output`.
pub fn compress(input: &[u8], output: Vec<u8>) -> (r: Result<Vec<u8>, Error>)
    ensures
        r matches Ok(out) && out@ == written_to(output@, input@),
{
    let mut cw = Writer::new(output);
    let n: usize = input.len();
    proof {
        assert(9 * HALF * n <= 9 * HALF * 0xffff_ffff_ffff_ffff) by (nonlinear_arith)
            requires
                n <= 0xffff_ffff_ffff_ffff,
        ;
        assert(9 * HALF * n == 9 * HALF * input@.len());
    }
    let _ = cw.write(input);
    let _ = cw.flush();
    Ok(cw.into_inner())
}

/// What `output` holds after the compressed form of `input` was appended
/// to it.
pub open spec fn written_to(output: Seq<u8>, input: Seq<u8>) -> Seq<u8> {
    ended(
        written(
            WriterView {
                enc: EncView {
                    bytes: output,
                    buf: 0,
                    bits: 0,
                    pending: 0,
                    low: 0,
                    range: HALF as int,
                },
                model: fresh_model(),
                context: 0,
            },
            input,
        ),
    ).enc.bytes
}

/// The state of a reader: that of its decoder, the model, the context,
/// and whether the end of the stream was found.
pub struct ReaderView {
    pub dec: DecView,
    pub model: Seq<(Count, Count)>,
    pub context: u16,
    pub eof: bool,
}

/// The bit that the reader finds in its context.
pub open spec fn bit_found(v: ReaderView) -> int {
    dec_bit(v.dec, v.model[v.context as int].0 as int, v.model[v.context as int].1 as int)
}

/// Whether the attempt to decode a bit in its context reaches the end of
/// the input.
pub open spec fn bit_fails(v: ReaderView) -> bool {
    dec_fails(v.dec, v.model[v.context as int].0 as int, v.model[v.context as int].1 as int)
}

/// The state after a bit was decoded in its context.
pub open spec fn bit_read(v: ReaderView) -> ReaderView {
    ReaderView {
        dec: dec_stepped(
            v.dec,
            v.model[v.context as int].0 as int,
            v.model[v.context as int].1 as int,
        ),
        model: v.model.update(v.context as int, bumped(v.model[v.context as int], bit_found(v))),
        context: shifted(v.context, bit_found(v)),
        eof: v.eof,
    }
}

/// The state after the flag before a byte was decoded.
pub open spec fn flag_read(v: ReaderView) -> ReaderView {
    ReaderView { dec: dec_stepped(v.dec, FLAG_ZEROS as int, 1), ..v }
}

/// The state after the flag and `n` bits of a byte were decoded.
pub open spec fn bits_read(v: ReaderView, n: nat) -> ReaderView
    decreases n,
{
    if n == 0 {
        flag_read(v)
    } else {
        bit_read(bits_read(v, (n - 1) as nat))
    }
}

/// Whether decoding the flag and `n` bits of a byte reaches the end of the
/// input.
pub open spec fn bits_fail(v: ReaderView, n: nat) -> bool
    decreases n,
{
    if n == 0 {
        dec_fails(v.dec, FLAG_ZEROS as int, 1)
    } else {
        bits_fail(v, (n - 1) as nat) || bit_fails(bits_read(v, (n - 1) as nat))
    }
}

/// The number that the first `n` bits of a byte spell.
pub open spec fn bits_found(v: ReaderView, n: nat) -> int
    decreases n,
{
    if n == 0 {
        0
    } else {
        (2 * bits_found(v, (n - 1) as nat) + bit_found(bits_read(v, (n - 1) as nat))) % 256
    }
}

/// Whether the flag that the reader finds says that the stream ends.
pub open spec fn at_end(v: ReaderView) -> bool {
    dec_bit(v.dec, FLAG_ZEROS as int, 1) == 1
}

/// Whether reading `n` bytes, or as many as the stream has, reaches the
/// end of the input.
pub open spec fn reads_fail(v: ReaderView, n: nat) -> bool
    decreases n,
{
    if n == 0 {
        false
    } else if reads_fail(v, (n - 1) as nat) {
        true
    } else if reads_state(v, (n - 1) as nat).eof {
        false
    } else if bits_fail(reads_state(v, (n - 1) as nat), 0) {
        true
    } else if at_end(reads_state(v, (n - 1) as nat)) {
        false
    } else {
        bits_fail(reads_state(v, (n - 1) as nat), 8)
    }
}

/// The state after `n` bytes were read, or as many as the stream has.
pub open spec fn reads_state(v: ReaderView, n: nat) -> ReaderView
    decreases n,
{
    if n == 0 {
        v
    } else if reads_state(v, (n - 1) as nat).eof {
        reads_state(v, (n - 1) as nat)
    } else if at_end(reads_state(v, (n - 1) as nat)) {
        ReaderView { eof: true, ..flag_read(reads_state(v, (n - 1) as nat)) }
    } else {
        bits_read(reads_state(v, (n - 1) as nat), 8)
    }
}

/// The first `n` bytes of the stream, or as many as it has.
pub open spec fn reads_out(v: ReaderView, n: nat) -> Seq<u8>
    decreases n,
{
    if n == 0 {
        Seq::empty()
    } else if reads_state(v, (n - 1) as nat).eof || at_end(reads_state(v, (n - 1) as nat)) {
        reads_out(v, (n - 1) as nat)
    } else {
        reads_out(v, (n - 1) as nat).push(bits_found(reads_state(v, (n - 1) as nat), 8) as u8)
    }
}

/// The reader can read a byte in this state.
pub open spec fn reader_ok(v: ReaderView) -> bool {
    dec_ok(v.dec) && model_ok(v.model)
}

/// Decoding the flag and bits of a byte keeps decoder and model in order,
/// and takes bits from the input or makes the interval smaller.
pub proof fn lemma_bits_read(v: ReaderView, n: nat)
    requires
        reader_ok(v),
        !bits_fail(v, n),
    ensures
        reader_ok(bits_read(v, n)),
        bits_read(v, n).eof == v.eof,
        0 <= bits_found(v, n) < 256,
        avail(bits_read(v, n).dec) <= avail(v.dec),
        avail(bits_read(v, n).dec) == avail(v.dec) ==> bits_read(v, n).dec.range < v.dec.range,
    decreases n,
{
    if n == 0 {
        lemma_dec_stepped(v.dec, FLAG_ZEROS as int, 1);
    } else {
        let w = bits_read(v, (n - 1) as nat);
        lemma_bits_read(v, (n - 1) as nat);
        let c = w.model[w.context as int];
        lemma_dec_stepped(w.dec, c.0 as int, c.1 as int);
        let m2 = bit_read(w).model;
        assert forall|i: int| 0 <= i < CONTEXTS implies (#[trigger] m2[i]).0 >= 1 && m2[i].1 >= 1
            && m2[i].0 + m2[i].1 < COUNT_LIMIT by {
            assert(w.model[i].0 >= 1);
        }
    }
}

/// Once the end of the stream is found, or the end of the input reached,
/// reading more changes nothing.
pub proof fn lemma_reads_stable(v: ReaderView, n: nat, m: nat)
    requires
        n <= m,
        reads_fail(v, n) || reads_state(v, n).eof,
    ensures
        reads_fail(v, m) == reads_fail(v, n),
        !reads_fail(v, n) ==> reads_state(v, m) == reads_state(v, n) && reads_out(v, m)
            == reads_out(v, n),
    decreases m,
{
    if n < m {
        lemma_reads_stable(v, n, (m - 1) as nat);
    }
}

/// A decompressor for byte streams: a bit decoder with an adaptive model of
/// order 16.
pub struct Reader<'a> {
    decoder: Decoder<'a>,
    model: Vec<(Count, Count)>,
    context: u16,
    eof: bool,
}

impl<'a> Reader<'a> {
    /// The state of the reader.
    pub closed spec fn view(&self) -> ReaderView {
        ReaderView {
            dec: self.decoder@,
            model: self.model@,
            context: self.context,
            eof: self.eof,
        }
    }

    /// The reader can read a byte.
    pub closed spec fn wf(&self) -> bool {
        self.decoder.wf() && model_ok(self.model@)
    }

    /// Create a reader of the compressed data in `input`.  This reads a word
    /// of data, and fails where the data is shorter.
    pub fn new(input: &'a [u8]) -> (r: Result<Reader<'a>, Error>)
        ensures
            match r {
                Ok(reader) => !primed_starved(input@) && reader.wf() && reader@ == (ReaderView {
                    dec: primed(input@),
                    model: fresh_model(),
                    context: 0,
                    eof: false,
                }),
                Err(e) => primed_starved(input@) && e == Error::UnexpectedEof,
            },
    {
        let dec = match Decoder::new(input) {
            Ok(dec) => dec,
            Err(e) => {
                return Err(e);
            },
        };
        Ok(Reader { decoder: dec, model: new_model(), context: 0, eof: false })
    }

    /// Decode the next byte, or find the end of the stream.
    fn read_byte(&mut self) -> (r: Result<Option<u8>, Error>)
        requires
            old(self).wf(),
            !old(self)@.eof,
        ensures
            match r {
                Ok(Some(b)) => !reads_fail(old(self)@, 1) && !at_end(old(self)@) && !final(self)@.eof && b == bits_found(old(self)@, 8) && final(self).wf() && final(self)@
                    == reads_state(old(self)@, 1),
                Ok(None) => !reads_fail(old(self)@, 1) && at_end(old(self)@) && final(self)@.eof
                    && final(self).wf() && final(self)@ == reads_state(old(self)@, 1),
                Err(e) => reads_fail(old(self)@, 1) && e == Error::UnexpectedEof,
            },
    {
        proof {
            lemma_reads_one(self@);
            lemma_dec_stepped(self@.dec, FLAG_ZEROS as int, 1);
        }
        let eof_flag = match self.decoder.decode(FLAG_ZEROS, 1) {
            Ok(bit) => bit,
            Err(e) => {
                return Err(e);
            },
        };
        if eof_flag == 1 {
            self.eof = true;
            return Ok(None);
        }
        let mut byte: u8 = 0;
        let mut i: usize = 0;
        while i < 8
            invariant
                i <= 8,
                self.wf(),
                reader_ok(old(self)@),
                !old(self)@.eof,
                !at_end(old(self)@),
                !bits_fail(old(self)@, i as nat),
                self@ == bits_read(old(self)@, i as nat),
                byte == bits_found(old(self)@, i as nat),
            decreases 8 - i,
        {
            let c = self.model[self.context as usize];
            let bit = match self.decoder.decode(c.0, c.1) {
                Ok(bit) => bit,
                Err(e) => {
                    proof {
                        lemma_bits_fail(old(self)@, (i + 1) as nat, 8);
                        lemma_reads_one(old(self)@);
                    }
                    return Err(e);
                },
            };
            proof {
                lemma_bits_read(old(self)@, (i + 1) as nat);
            }
            self.context = model_step(&mut self.model, self.context, bit);
            let b = bit as u8;
            assert((byte << 1) | b == (2 * byte + b) % 256) by (bit_vector)
                requires
                    b <= 1,
            ;
            byte = (byte << 1) | b;
            i += 1;
        }
        proof {
            lemma_reads_one(old(self)@);
            lemma_bits_read(old(self)@, 8);
            if bits_fail(old(self)@, 0) {
                lemma_bits_fail(old(self)@, 0, 8);
            }
        }
        Ok(Some(byte))
    }

    /// Decompress up to `count` bytes and append them to `output`.  Returns
    /// the number of bytes appended, which is smaller than `count` only at
    /// the end of the stream.  Fails where the input ends first; the reader
    /// cannot be used after that.
    pub fn read(&mut self, output: &mut Vec<u8>, count: usize) -> (r: Result<usize, Error>)
        requires
            old(self).wf(),
        ensures
            match r {
                Ok(n) => !reads_fail(old(self)@, count as nat) && final(self).wf() && final(self)@
                    == reads_state(old(self)@, count as nat) && final(output)@ == old(output)@
                    + reads_out(old(self)@, count as nat) && n == reads_out(
                    old(self)@,
                    count as nat,
                ).len(),
                Err(e) => reads_fail(old(self)@, count as nat) && e == Error::UnexpectedEof,
            },
    {
        let mut nread: usize = 0;
        let mut i: usize = 0;
        proof {
            assert(old(output)@ + reads_out(old(self)@, 0) =~= old(output)@);
        }
        while i < count && !self.eof
            invariant
                i <= count,
                nread <= i,
                self.wf(),
                !reads_fail(old(self)@, i as nat),
                self@ == reads_state(old(self)@, i as nat),
                output@ == old(output)@ + reads_out(old(self)@, i as nat),
                nread == reads_out(old(self)@, i as nat).len(),
            decreases count - i,
        {
            let ghost here = self@;
            proof {
                lemma_reads_one(here);
            }
            match self.read_byte() {
                Ok(Some(b)) => {
                    output.push(b);
                    nread += 1;
                    proof {
                        lemma_reads_next(old(self)@, i as nat);
                        assert(!at_end(here));
                        assert(output@ =~= old(output)@ + reads_out(
                            old(self)@,
                            (i + 1) as nat,
                        ));
                    }
                },
                Ok(None) => {
                    proof {
                        lemma_reads_next(old(self)@, i as nat);
                        assert(at_end(here));
                    }
                },
                Err(e) => {
                    proof {
                        lemma_reads_next(old(self)@, i as nat);
                        lemma_reads_stable(old(self)@, (i + 1) as nat, count as nat);
                    }
                    return Err(e);
                },
            }
            i += 1;
        }
        proof {
            if i < count {
                lemma_reads_stable(old(self)@, i as nat, count as nat);
            }
        }
        Ok(nread)
    }

    /// Decompress all bytes up to the end of the stream and append them to
    /// `output`.  Returns the number of bytes appended.  Fails where the
    /// input ends first.
    pub fn read_to_end(&mut self, output: &mut Vec<u8>) -> (r: Result<usize, Error>)
        requires
            old(self).wf(),
        ensures
            match r {
                Ok(n) => exists|k: nat|
                    !reads_fail(old(self)@, k) && #[trigger] reads_state(old(self)@, k).eof
                        && final(self)@ == reads_state(old(self)@, k) && final(output)@ == old(
                        output,
                    )@ + reads_out(old(self)@, k) && n == reads_out(old(self)@, k).len(),
                Err(e) => e == Error::UnexpectedEof && exists|k: nat| #[trigger]
                    reads_fail(old(self)@, k),
            },
    {
        let start: usize = output.len();
        let ghost mut k: nat = 0;
        proof {
            assert(old(output)@ + reads_out(old(self)@, 0) =~= old(output)@);
        }
        while !self.eof
            invariant
                self.wf(),
                !reads_fail(old(self)@, k),
                self@ == reads_state(old(self)@, k),
                output@ == old(output)@ + reads_out(old(self)@, k),
                start == old(output)@.len(),
            decreases avail(self@.dec), self@.dec.range,
        {
            let ghost here = self@;
            proof {
                lemma_reads_one(here);
                lemma_reads_next(old(self)@, k);
                if !bits_fail(here, 0) {
                    lemma_bits_read(here, 0);
                    if !at_end(here) && !bits_fail(here, 8) {
                        lemma_bits_read(here, 8);
                    }
                }
            }
            match self.read_byte() {
                Ok(Some(b)) => {
                    output.push(b);
                    proof {
                        assert(!at_end(here));
                        assert(output@ =~= old(output)@ + reads_out(old(self)@, k + 1));
                    }
                },
                Ok(None) => {
                    proof {
                        assert(at_end(here));
                    }
                },
                Err(e) => {
                    proof {
                        assert(reads_fail(old(self)@, k + 1));
                    }
                    return Err(e);
                },
            }
            proof {
                k = k + 1;
            }
        }
        proof {
            assert(reads_state(old(self)@, k).eof);
        }
        Ok(output.len() - start)
    }
}

/// What reading one byte more adds to the reading of `n` bytes.
pub proof fn lemma_reads_next(v: ReaderView, n: nat)
    requires
        !reads_fail(v, n),
        !reads_state(v, n).eof,
    ensures
        reads_fail(v, n + 1) == (bits_fail(reads_state(v, n), 0) || (!at_end(reads_state(v, n))
            && bits_fail(reads_state(v, n), 8))),
        reads_state(v, n + 1) == if at_end(reads_state(v, n)) {
            ReaderView { eof: true, ..flag_read(reads_state(v, n)) }
        } else {
            bits_read(reads_state(v, n), 8)
        },
        reads_out(v, n + 1) == if at_end(reads_state(v, n)) {
            reads_out(v, n)
        } else {
            reads_out(v, n).push(bits_found(reads_state(v, n), 8) as u8)
        },
{
    assert((n + 1 - 1) as nat == n);
}

/// One read from a state in order: what `reads_fail`, `reads_state` and
/// `reads_out` say of a single byte.
pub proof fn lemma_reads_one(v: ReaderView)
    requires
        reader_ok(v),
        !v.eof,
    ensures
        reads_fail(v, 1) == (bits_fail(v, 0) || (!at_end(v) && bits_fail(v, 8))),
        !bits_fail(v, 0) && at_end(v) ==> reads_state(v, 1) == (ReaderView {
            eof: true,
            ..flag_read(v)
        }),
        !bits_fail(v, 0) && !at_end(v) ==> reads_state(v, 1) == bits_read(v, 8),
{
    assert(reads_state(v, 0) == v);
    assert(!reads_fail(v, 0));
}

/// A failure within the first bits of a byte is a failure of the byte.
pub proof fn lemma_bits_fail(v: ReaderView, n: nat, m: nat)
    requires
        n <= m,
        bits_fail(v, n),
    ensures
        bits_fail(v, m),
    decreases m,
{
    if n < m {
        lemma_bits_fail(v, n, (m - 1) as nat);
    }
}

/// Decompress the data in `input` and append the decompressed bytes to
/// `output`.
pub fn decompress(input: &[u8], output: Vec<u8>) -> (r: Result<Vec<u8>, Error>)
    ensures
        match r {
            Ok(out) => !primed_starved(input@) && exists|k: nat|
                !reads_fail(reader_start(input@), k) && #[trigger] reads_state(
                    reader_start(input@),
                    k,
                ).eof && out@ == output@ + reads_out(reader_start(input@), k),
            Err(e) => e == Error::UnexpectedEof && (primed_starved(input@) || exists|k: nat| #[trigger]
                reads_fail(reader_start(input@), k)),
        },
{
    let mut out = output;
    let mut cr = match Reader::new(input) {
        Ok(cr) => cr,
        Err(e) => {
            return Err(e);
        },
    };
    assert(cr@ == reader_start(input@));
    match cr.read_to_end(&mut out) {
        Ok(_) => Ok(out),
        Err(e) => Err(e),
    }
}

/// The state of a reader that has read the first word of `input`.
pub open spec fn reader_start(input: Seq<u8>) -> ReaderView {
    ReaderView { dec: primed(input), model: fresh_model(), context: 0, eof: false }
}

} // verus!
