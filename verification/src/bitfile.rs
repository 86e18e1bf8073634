//! Bitwise output to and input from byte buffers.
//!
//! Bits are packed into bytes most significant bit first.  The writer keeps
//! an unfinished byte until it is full or flushed; the reader can hand out a
//! bounded number of zero bits after the end of its data.

use vstd::prelude::*;
use crate::bits::{
    bits_clear_from, bits_value, byte_bit, bytes_to_bits, has_weight, lemma_bits_value_bound,
    lemma_bytes_to_bits_push, lemma_clear_next, lemma_mask_ops, lemma_pack_bytes_and_partial,
    lemma_set_bit, pack_bits, value_bit, value_bits, weight,
};
use crate::error::Error;

verus! {

/// The position, counted from the most significant bit, of the bit that
/// `mask` selects.
pub open spec fn mask_index(mask: u8) -> u8 {
    if mask == 128 {
        0
    } else if mask == 64 {
        1
    } else if mask == 32 {
        2
    } else if mask == 16 {
        3
    } else if mask == 8 {
        4
    } else if mask == 4 {
        5
    } else if mask == 2 {
        6
    } else {
        7
    }
}

/// Whether `mask` selects exactly one bit of a byte.
pub open spec fn is_bit_mask(mask: u8) -> bool {
    mask == weight(mask_index(mask))
}

/// The bits that a reader can still deliver: the bits of its data that it
/// has not handed out, and the number of zero bits it may add after them.
pub struct BitSource {
    pub bits: Seq<bool>,
    pub extra: nat,
}

impl BitSource {
    /// The number of bits that can still be read.
    pub open spec fn remaining(self) -> nat {
        self.bits.len() + self.extra
    }

    /// The next bit, where one can be read.
    pub open spec fn head(self) -> bool {
        self.bits.len() > 0 && self.bits[0]
    }

    /// The source after one bit has been read.
    pub open spec fn tail(self) -> BitSource {
        if self.bits.len() > 0 {
            BitSource { bits: self.bits.skip(1), extra: self.extra }
        } else {
            BitSource {
                bits: self.bits,
                extra: if self.extra > 0 {
                    (self.extra - 1) as nat
                } else {
                    0
                },
            }
        }
    }

    /// The source after `n` bits have been read.
    pub open spec fn skip(self, n: nat) -> BitSource
        decreases n,
    {
        if n == 0 {
            self
        } else {
            self.tail().skip((n - 1) as nat)
        }
    }

    /// The next `n` bits.
    pub open spec fn take(self, n: nat) -> Seq<bool>
        decreases n,
    {
        if n == 0 {
            Seq::empty()
        } else {
            seq![self.head()] + self.tail().take((n - 1) as nat)
        }
    }

    /// Reading `a` bits and then `b` bits reads `a + b` bits.
    pub proof fn lemma_skip_add(self, a: nat, b: nat)
        ensures
            self.skip(a).skip(b) == self.skip(a + b),
        decreases a,
    {
        if a > 0 {
            self.tail().lemma_skip_add((a - 1) as nat, b);
        }
    }

    /// Reading `n` bits and then one more reads `n + 1` bits.
    pub proof fn lemma_take_one_more(self, n: nat)
        ensures
            self.take(n).len() == n,
            self.take(n + 1) =~= self.take(n).push(self.skip(n).head()),
            self.skip(n + 1) == self.skip(n).tail(),
            self.skip(n).remaining() == if self.remaining() >= n {
                self.remaining() - n
            } else {
                0
            },
        decreases n,
    {
        if n == 0 {
            assert(self.take(1) =~= seq![self.head()] + self.tail().take(0));
            assert(self.skip(1) == self.tail().skip(0));
        } else {
            self.tail().lemma_take_one_more((n - 1) as nat);
            assert(self.take(n + 1) =~= seq![self.head()] + self.tail().take(n));
        }
    }
}

/// Reads single bits and groups of bits from a byte buffer.
pub struct BitReader<'a> {
    inner: &'a [u8],
    pos: usize,
    buf: u8,
    mask: u8,
    extra_bits: usize,
}

impl<'a> BitReader<'a> {
    /// The number of bits of the current byte that have not been handed out.
    pub closed spec fn pending(&self) -> int {
        if self.mask == 128 {
            0
        } else {
            8 - mask_index(self.mask)
        }
    }

    /// The reader's representation is consistent.
    pub closed spec fn wf(&self) -> bool {
        &&& is_bit_mask(self.mask)
        &&& self.pos <= self.inner@.len()
        &&& self.mask != 128 ==> self.pos > 0 && self.buf == self.inner@[self.pos - 1]
    }

    /// The bits that can still be read.
    pub closed spec fn view(&self) -> BitSource {
        BitSource {
            bits: bytes_to_bits(self.inner@).skip(8 * self.pos - self.pending()),
            extra: self.extra_bits as nat,
        }
    }

    /// Create a reader of the bits of `inner` that delivers nothing after
    /// them.
    pub fn new(inner: &'a [u8]) -> (r: BitReader<'a>)
        ensures
            r.wf(),
            r@ == (BitSource { bits: bytes_to_bits(inner@), extra: 0 }),
    {
        let r = BitReader { inner: inner, pos: 0, buf: 0, mask: 0x80, extra_bits: 0 };
        assert(bytes_to_bits(inner@).skip(0) =~= bytes_to_bits(inner@));
        r
    }

    /// Create a reader of the bits of `inner` that delivers up to `extra`
    /// zero bits after them.
    pub fn new_with_extra(inner: &'a [u8], extra: usize) -> (r: BitReader<'a>)
        ensures
            r.wf(),
            r@ == (BitSource { bits: bytes_to_bits(inner@), extra: extra as nat }),
    {
        let r = BitReader { inner: inner, pos: 0, buf: 0, mask: 0x80, extra_bits: extra };
        assert(bytes_to_bits(inner@).skip(0) =~= bytes_to_bits(inner@));
        r
    }

    /// Read the next bit.  After the data a zero bit is delivered as long as
    /// the budget of extra bits lasts; then reading fails and changes
    /// nothing.
    pub fn read_bit(&mut self) -> (r: Result<bool, Error>)
        requires
            old(self).wf(),
        ensures
            final(self).wf(),
            old(self)@.remaining() > 0 ==> r == Ok::<bool, Error>(old(self)@.head()) && final(self)@ == old(self)@.tail(),
            old(self)@.remaining() == 0 ==> r == Err::<bool, Error>(Error::UnexpectedEof)
                && final(self)@ == old(self)@,
    {
        let ghost all = bytes_to_bits(self.inner@);
        if self.mask == 0x80 {
            if self.pos >= self.inner.len() {
                if self.extra_bits > 0 {
                    self.extra_bits -= 1;
                    return Ok(false);
                } else {
                    return Err(Error::UnexpectedEof);
                }
            }
            self.buf = self.inner[self.pos];
            self.pos += 1;
        }
        let ghost k = mask_index(self.mask);
        let ghost at = 8 * (self.pos - 1) + k;
        proof {
            lemma_mask_ops(self.buf, k);
            assert(at / 8 == self.pos - 1);
            assert(at % 8 == k as int);
            assert(all[at] == byte_bit(self.buf, k as int));
            assert(old(self)@.bits =~= all.skip(at));
            assert(all.skip(at).skip(1) =~= all.skip(at + 1));
        }
        let result = self.buf & self.mask;
        self.mask = self.mask >> 1;
        if self.mask == 0 {
            self.mask = 0x80;
        }
        Ok(result != 0)
    }

    /// Read the next `count` bits and return them as the least significant
    /// bits of the result, the first bit read being the most significant.
    /// Where fewer than `count` bits can be read, all of them are consumed
    /// and reading fails.
    pub fn read_bits(&mut self, count: usize) -> (r: Result<u64, Error>)
        requires
            old(self).wf(),
            count <= 64,
        ensures
            final(self).wf(),
            old(self)@.remaining() >= count ==> r == Ok::<u64, Error>(
                bits_value(old(self)@.take(count as nat)) as u64,
            ) && final(self)@ == old(self)@.skip(count as nat),
            old(self)@.remaining() < count ==> r == Err::<u64, Error>(Error::UnexpectedEof)
                && final(self)@.remaining() == 0,
    {
        let mut result: u64 = 0;
        let mut done: usize = 0;
        let ghost start = self@;
        while done < count
            invariant
                self.wf(),
                done <= count <= 64,
                start == old(self)@,
                start.remaining() >= done,
                self@ == start.skip(done as nat),
                result == bits_value(start.take(done as nat)),
            decreases count - done,
        {
            proof {
                start.lemma_take_one_more(done as nat);
                start.lemma_take_one_more((done + 1) as nat);
                lemma_bits_value_bound(start.take(done as nat));
                lemma_bits_value_bound(start.take((done + 1) as nat));
                if done + 1 < 64 {
                    vstd::arithmetic::power2::lemma_pow2_strictly_increases((done + 1) as nat, 64);
                }
                vstd::arithmetic::power2::lemma2_to64();
                assert(start.take((done + 1) as nat).drop_last() =~= start.take(done as nat));
            }
            match self.read_bit() {
                Ok(b) => {
                    assert(bits_value(start.take((done + 1) as nat)) == 2 * result + if b {
                        1nat
                    } else {
                        0nat
                    });
                    result = 2 * result + if b {
                        1
                    } else {
                        0
                    };
                },
                Err(e) => {
                    return Err(e);
                },
            }
            done += 1;
        }
        Ok(result)
    }

    /// Read `count` bytes, each as eight bits, and append them to `output`.
    /// Returns `count`.  Where fewer bits can be read, reading fails; the
    /// bytes that could be read are appended all the same.
    pub fn read(&mut self, output: &mut Vec<u8>, count: usize) -> (r: Result<usize, Error>)
        requires
            old(self).wf(),
        ensures
            final(self).wf(),
            old(self)@.remaining() >= 8 * count ==> r == Ok::<usize, Error>(count) && final(self)@
                == old(self)@.skip((8 * count) as nat) && final(output)@ == old(output)@
                + bytes_of(old(self)@, count as nat),
            old(self)@.remaining() < 8 * count ==> r == Err::<usize, Error>(Error::UnexpectedEof),
    {
        let ghost start = self@;
        let mut i: usize = 0;
        proof {
            assert(old(output)@ + bytes_of(start, 0) =~= old(output)@);
        }
        while i < count
            invariant
                i <= count,
                self.wf(),
                start == old(self)@,
                start.remaining() >= 8 * i,
                self@ == start.skip((8 * i) as nat),
                output@ == old(output)@ + bytes_of(start, i as nat),
            decreases count - i,
        {
            proof {
                start.lemma_take_one_more((8 * i) as nat);
                start.lemma_skip_add((8 * i) as nat, 8);
                self@.lemma_take_one_more(8);
                lemma_bits_value_bound(self@.take(8));
                vstd::arithmetic::power2::lemma2_to64();
            }
            let b = match self.read_bits(8) {
                Ok(b) => b,
                Err(e) => {
                    return Err(e);
                },
            };
            output.push(b as u8);
            proof {
                assert(output@ =~= old(output)@ + bytes_of(start, (i + 1) as nat));
            }
            i += 1;
        }
        Ok(count)
    }
}

/// The first `n` bytes that a source gives, each read as eight bits.
pub open spec fn bytes_of(src: BitSource, n: nat) -> Seq<u8> {
    Seq::new(n, |i: int| bits_value(src.skip((8 * i) as nat).take(8)) as u8)
}

/// Writes single bits and groups of bits to a byte buffer.
pub struct BitWriter {
    inner: Vec<u8>,
    buf: u8,
    mask: u8,
}

impl BitWriter {
    /// The writer's representation is consistent.
    pub closed spec fn wf(&self) -> bool {
        &&& is_bit_mask(self.mask)
        &&& bits_clear_from(self.buf, mask_index(self.mask))
    }

    /// The bytes that have reached the buffer.
    pub closed spec fn bytes(&self) -> Seq<u8> {
        self.inner@
    }

    /// The bits of the unfinished byte, fewer than eight.
    pub closed spec fn partial(&self) -> Seq<bool> {
        Seq::new(mask_index(self.mask) as nat, |i: int| byte_bit(self.buf, i))
    }

    /// The bits of the stream as written: those of the bytes in the buffer
    /// and after them those of the unfinished byte.
    pub open spec fn bits(&self) -> Seq<bool> {
        bytes_to_bits(self.bytes()) + self.partial()
    }

    /// Create a bit writer that appends to `inner`.
    pub fn new(inner: Vec<u8>) -> (w: BitWriter)
        ensures
            w.wf(),
            w.bytes() == inner@,
            w.partial() == Seq::<bool>::empty(),
    {
        let w = BitWriter { inner: inner, buf: 0, mask: 0x80 };
        assert(w.partial() =~= Seq::<bool>::empty());
        w
    }

    /// Write one bit.  The eighth bit of a byte completes it and sends it to
    /// the buffer.
    pub fn write_bit(&mut self, bit: bool) -> (r: Result<(), Error>)
        requires
            old(self).wf(),
        ensures
            final(self).wf(),
            r is Ok,
            final(self).bits() == old(self).bits().push(bit),
            old(self).partial().len() < 7 ==> final(self).bytes() == old(self).bytes() && final(self).partial() == old(self).partial().push(bit),
            old(self).partial().len() == 7 ==> final(self).bytes() == pack_bits(
                old(self).bits().push(bit),
            ) && final(self).partial() == Seq::<bool>::empty(),
    {
        let ghost k = mask_index(self.mask);
        let ghost before = self.partial();
        proof {
            lemma_mask_ops(self.buf, k);
            assert forall|i: u8| i < k implies has_weight(
                (self.buf + weight(k)) as u8,
                weight(i),
            ) == has_weight(self.buf, weight(i)) by {
                lemma_set_bit(self.buf, k, i);
            }
            lemma_set_bit(self.buf, k, k);
        }
        if bit {
            self.buf = self.buf | self.mask;
        }
        let ghost full = self.buf;
        proof {
            assert forall|i: int| 0 <= i < k implies byte_bit(full, i) == before[i] by {
                assert(has_weight(full, weight(i as u8)) == has_weight(
                    old(self).buf,
                    weight(i as u8),
                ));
            }
            assert(byte_bit(full, k as int) == bit);
            if k < 7 {
                lemma_clear_next(full, k);
            }
        }
        self.mask = self.mask >> 1;
        if self.mask == 0 {
            self.inner.push(self.buf);
            self.mask = 0x80;
            self.buf = 0;
            proof {
                lemma_bytes_to_bits_push(old(self).inner@, full);
                assert(Seq::new(8, |i: int| byte_bit(full, i)) =~= before.push(bit));
                assert(self.partial() =~= Seq::<bool>::empty());
                assert(self.bits() =~= old(self).bits().push(bit));
                lemma_pack_bytes_and_partial(self.inner@, 0, 0);
                assert(self.bits() =~= bytes_to_bits(self.inner@) + Seq::new(
                    0,
                    |i: int| byte_bit(0, i),
                ));
            }
        } else {
            proof {
                assert(self.partial() =~= before.push(bit));
                assert(self.bits() =~= old(self).bits().push(bit));
            }
        }
        Ok(())
    }

    /// Write the `count` least significant bits of `value`, the most
    /// significant of them first.
    pub fn write_bits(&mut self, value: u64, count: usize) -> (r: Result<(), Error>)
        requires
            old(self).wf(),
            count <= 64,
        ensures
            final(self).wf(),
            r is Ok,
            final(self).bits() == old(self).bits() + value_bits(value, count as nat),
    {
        let mut left: usize = count;
        while left > 0
            invariant
                self.wf(),
                left <= count <= 64,
                self.bits() == old(self).bits() + value_bits(value, count as nat).take(
                    count - left,
                ),
            decreases left,
        {
            left -= 1;
            let bit = (value >> left) & 1 == 1;
            proof {
                let shifted = value >> left;
                assert((shifted & 1 == 1) == (shifted % 2 == 1)) by (bit_vector);
                vstd::bits::lemma_u64_shr_is_div(value, left as u64);
                assert(bit == value_bit(value, left as nat));
                let all = value_bits(value, count as nat);
                assert(all[count - left - 1] == bit);
                assert(all.take(count - left) =~= all.take(count - left - 1).push(bit));
            }
            let _ = self.write_bit(bit);
            proof {
                assert(self.bits() =~= old(self).bits() + value_bits(value, count as nat).take(
                    count - left,
                ));
            }
        }
        proof {
            assert(value_bits(value, count as nat).take(count as int) =~= value_bits(
                value,
                count as nat,
            ));
        }
        Ok(())
    }

    /// Write each byte of `input` as eight bits and return their number.
    pub fn write(&mut self, input: &[u8]) -> (r: Result<usize, Error>)
        requires
            old(self).wf(),
        ensures
            final(self).wf(),
            r == Ok::<usize, Error>(input@.len() as usize),
            final(self).bits() == old(self).bits() + bytes_to_bits(input@),
    {
        let mut i: usize = 0;
        while i < input.len()
            invariant
                self.wf(),
                i <= input@.len(),
                self.bits() == old(self).bits() + bytes_to_bits(input@.take(i as int)),
            decreases input@.len() - i,
        {
            let b = input[i];
            let _ = self.write_bits(b as u64, 8);
            proof {
                lemma_bytes_to_bits_push(input@.take(i as int), b);
                assert(input@.take(i + 1) =~= input@.take(i as int).push(b));
                lemma_value_bits_of_byte(b);
                assert(self.bits() =~= old(self).bits() + bytes_to_bits(input@.take(i + 1)));
            }
            i += 1;
        }
        proof {
            assert(input@.take(i as int) =~= input@);
        }
        Ok(input.len())
    }

    /// Send the unfinished byte, if there is one, to the buffer, its missing
    /// bits zero.  The writer keeps the unfinished byte: bits written later
    /// are added to it, and it is sent again when it is complete.
    pub fn do_flush(&mut self) -> (r: Result<(), Error>)
        requires
            old(self).wf(),
        ensures
            final(self).wf(),
            r is Ok,
            final(self).bytes() == pack_bits(old(self).bits()),
            final(self).partial() == old(self).partial(),
    {
        proof {
            lemma_pack_bytes_and_partial(self.inner@, self.buf, mask_index(self.mask));
        }
        if self.mask != 0x80 {
            self.inner.push(self.buf);
        }
        Ok(())
    }

    /// Send the unfinished byte to the buffer as `do_flush` does.
    pub fn flush(&mut self) -> (r: Result<(), Error>)
        requires
            old(self).wf(),
        ensures
            final(self).wf(),
            r is Ok,
            final(self).bytes() == pack_bits(old(self).bits()),
            final(self).partial() == old(self).partial(),
    {
        self.do_flush()
    }

    /// Give up the writer for the buffer it wrote to.  Bits of an unfinished
    /// byte that was not flushed are lost.
    pub fn to_inner(self) -> (inner: Vec<u8>)
        ensures
            inner@ == self.bytes(),
    {
        self.inner
    }
}

/// The eight low bits of a byte taken as a number are the bits of the byte.
pub proof fn lemma_value_bits_of_byte(b: u8)
    ensures
        value_bits(b as u64, 8) =~= Seq::new(8, |k: int| byte_bit(b, k)),
{
    vstd::arithmetic::power2::lemma2_to64();
    let v = value_bits(b as u64, 8);
    assert(v[0] == byte_bit(b, 0));
    assert(v[1] == byte_bit(b, 1));
    assert(v[2] == byte_bit(b, 2));
    assert(v[3] == byte_bit(b, 3));
    assert(v[4] == byte_bit(b, 4));
    assert(v[5] == byte_bit(b, 5));
    assert(v[6] == byte_bit(b, 6));
    assert(v[7] == byte_bit(b, 7));
}

} // verus!
