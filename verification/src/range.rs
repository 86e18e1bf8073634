//! A range coder over tables of cumulative frequencies.
//!
//! Adapted from the range coder of Kazuho Oku.  The coder keeps an interval
//! as its lower end and its size in 32 bits each, narrows it to the range of
//! each symbol, and moves a byte out whenever the size has fallen below
//! 2^24.
//!
//! A table of cumulative frequencies has one entry more than there are
//! symbols: entry `i` is the sum of the frequencies of the symbols below
//! `i`, so that it starts with zero and ends with the total.

use vstd::prelude::*;

verus! {

/// The size below which the interval is widened.
pub const TOP: u32 = 0x100_0000;

/// A table of cumulative frequencies that the coder can work with: it
/// starts at zero, does not fall, and its total is neither zero nor above
/// `TOP`.
pub open spec fn table_ok(cum_freq: Seq<u32>) -> bool {
    &&& cum_freq.len() >= 2
    &&& cum_freq[0] == 0
    &&& forall|i: int, j: int|
        0 <= i <= j < cum_freq.len() ==> #[trigger] cum_freq[i] <= #[trigger] cum_freq[j]
    &&& 0 < cum_freq[cum_freq.len() - 1] <= TOP
}

/// What an encoder holds between two symbols: the lower end of the
/// interval, its size, the byte that is held back for a carry, whether no
/// byte was moved out yet, and the bytes written.
pub struct CoderView {
    pub ll: u32,
    pub rr: u32,
    pub buffer: u8,
    pub start: bool,
    pub out: Seq<u8>,
}

/// The sum of two numbers of 32 bits, cut to 32 bits.
pub open spec fn wrapped_sum(a: u32, b: u32) -> u32 {
    (((a + b) as u64) & 0xffff_ffff) as u32
}

/// The byte after `b`, which is zero after 255.
pub open spec fn bumped(b: u8) -> u8 {
    if b == 255 {
        0
    } else {
        (b + 1) as u8
    }
}

/// The encoder after the interval was narrowed to the range from `lo` to
/// `hi` of a table with the total `total`.  Where the lower end wraps, the
/// byte that is held back takes the carry.
pub open spec fn narrowed(v: CoderView, lo: u32, hi: u32, total: u32) -> CoderView {
    let r = v.rr as int / total as int;
    let ll = wrapped_sum(v.ll, (r * lo) as u32);
    CoderView {
        ll: ll,
        rr: (if hi < total {
            r * (hi - lo)
        } else {
            v.rr - r * lo
        }) as u32,
        buffer: if ll < v.ll {
            bumped(v.buffer)
        } else {
            v.buffer
        },
        start: v.start,
        out: v.out,
    }
}

/// The byte that is held back after the lower end `ll` was moved up.
pub open spec fn held_for(ll: u32) -> u8 {
    if ll > 24 {
        1
    } else {
        0
    }
}

/// The measure by which widening ends.
pub open spec fn narrowness(rr: u32) -> int {
    if rr < TOP {
        TOP - rr
    } else {
        0
    }
}

/// The encoder after one step of widening: the byte that was held back
/// goes out, unless it is the first, and the interval moves up by a byte.
pub open spec fn moved_up(v: CoderView) -> CoderView {
    CoderView {
        ll: v.ll << 8,
        rr: (v.rr * 256) as u32,
        buffer: held_for(v.ll),
        start: false,
        out: if v.start {
            v.out
        } else {
            v.out.push(v.buffer)
        },
    }
}

/// The encoder after the interval was widened until its size is `TOP` or
/// more.
pub open spec fn widened(v: CoderView) -> CoderView
    decreases narrowness(v.rr),
{
    if v.rr == 0 || v.rr >= TOP {
        v
    } else {
        widened(moved_up(v))
    }
}

/// The encoder after a symbol with the range from `lo` to `hi` was coded.
pub open spec fn coded(v: CoderView, lo: u32, hi: u32, total: u32) -> CoderView {
    widened(narrowed(v, lo, hi, total))
}

/// The bytes of the lower end `ll` that end a stream: the highest bytes, up
/// to the first in which `ll` differs from `t`, and `n` at most.
pub open spec fn tail_bytes(ll: u32, t: u32, n: nat) -> Seq<u8>
    decreases n,
{
    if n == 0 {
        Seq::empty()
    } else if t >> 24 != ll >> 24 {
        seq![(ll >> 24) as u8]
    } else {
        seq![(ll >> 24) as u8] + tail_bytes(ll << 8, t << 8, (n - 1) as nat)
    }
}

/// The bytes written when the stream has been ended: those written before,
/// the byte that was held back, and the bytes of the lower end that tell it
/// from the upper end.
pub open spec fn finished(v: CoderView) -> Seq<u8> {
    v.out.push(v.buffer) + tail_bytes(v.ll, wrapped_sum(v.ll, v.rr), 4)
}

/// The encoder.
pub struct RangeCoder {
    ll: u32,
    rr: u32,
    buffer: u8,
    start: bool,
    carry_n: usize,
    inner: Vec<u8>,
}

impl View for RangeCoder {
    type V = CoderView;

    closed spec fn view(&self) -> CoderView {
        CoderView {
            ll: self.ll,
            rr: self.rr,
            buffer: self.buffer,
            start: self.start,
            out: self.inner@,
        }
    }
}

impl RangeCoder {
    /// The bytes written so far.
    pub open spec fn out(&self) -> Seq<u8> {
        self@.out
    }

    /// No byte waits for a carry.
    pub closed spec fn settled(&self) -> bool {
        self.carry_n == 0
    }

    /// The encoder can code a symbol.
    pub open spec fn wf(&self) -> bool {
        self@.rr >= TOP && self.settled()
    }

    /// Create an encoder that appends to `output`.
    pub fn new(output: Vec<u8>) -> (rc: RangeCoder)
        ensures
            rc.wf(),
            rc@ == (CoderView { ll: 0, rr: 0xffffffff, buffer: 0, start: true, out: output@ }),
    {
        RangeCoder {
            ll: 0,
            rr: 0xffffffff,
            buffer: 0,
            carry_n: 0,
            start: true,
            inner: output,
        }
    }

    /// Code `symbol` under the table `cum_freq`.  The symbol must have a
    /// frequency that is not zero.
    pub fn encode(&mut self, symbol: u32, cum_freq: &[u32])
        requires
            old(self).wf(),
            table_ok(cum_freq@),
            symbol + 1 < cum_freq@.len(),
            cum_freq@[symbol as int] < cum_freq@[symbol + 1],
        ensures
            final(self).wf(),
            final(self)@ == coded(
                old(self)@,
                cum_freq@[symbol as int],
                cum_freq@[symbol + 1],
                cum_freq@[cum_freq@.len() - 1],
            ),
            final(self).out().len() >= old(self).out().len(),
            final(self).out().take(old(self).out().len() as int) == old(self).out(),
    {
        let ghost start = self.inner@;
        let ghost v0 = self@;
        proof {
            assert(start.take(start.len() as int) =~= start);
        }
        let lo = cum_freq[symbol as usize];
        let hi = cum_freq[symbol as usize + 1];
        let total = cum_freq[cum_freq.len() - 1];
        assert(hi <= total);
        let r = self.rr / total;
        proof {
            let rr = self.rr as int;
            vstd::arithmetic::div_mod::lemma_fundamental_div_mod(rr, total as int);
            vstd::arithmetic::div_mod::lemma_mod_bound(rr, total as int);
            assert(r >= 1) by (nonlinear_arith)
                requires
                    total * r + total > rr,
                    rr >= 0x100_0000,
                    0 < total <= 0x100_0000,
            ;
            assert(r * (hi - lo) <= rr && r * lo <= rr - r && r * (hi - lo) >= 1)
                by (nonlinear_arith)
                requires
                    total * r <= rr,
                    0 <= lo < hi <= total,
                    r >= 1,
            ;
        }
        if hi < total {
            self.rr = r * (hi - lo);
        } else {
            self.rr = self.rr - r * lo;
        }
        let sum = self.ll as u64 + (r * lo) as u64;
        let new_ll = (sum & 0xffff_ffff) as u32;
        if new_ll < self.ll {
            // A carry: the byte that is held back grows by one, wrapping at
            // 256, and the bytes that wait behind it go out.
            self.buffer = if self.buffer == 255 {
                0
            } else {
                self.buffer + 1
            };
            let ghost carried = self@;
            while self.carry_n != 0
                invariant
                    self.carry_n == 0,
                    self@ == carried,
                decreases self.carry_n,
            {
                self.putc(self.buffer);
                self.buffer = 0;
                self.carry_n -= 1;
            }
        }
        self.ll = new_ll;
        let ghost goal = coded(v0, lo, hi, total);
        assert(self@ == narrowed(v0, lo, hi, total));
        while self.rr < TOP
            invariant
                self.rr >= 1,
                self.carry_n == 0,
                widened(self@) == goal,
                self.inner@.len() >= start.len(),
                self.inner@.take(start.len() as int) == start,
            decreases narrowness(self.rr),
        {
            let ghost here = self@;
            let new_buffer: u8 = if self.ll > 24 {
                1
            } else {
                0
            };
            if self.start {
                self.buffer = new_buffer;
                self.start = false;
            } else if new_buffer == 0xff {
                self.carry_n += 1;
            } else {
                let ghost before = self.inner@;
                self.putc(self.buffer);
                proof {
                    assert(self.inner@.take(start.len() as int) =~= before.take(start.len() as int));
                }
                let ghost put = self@;
                while self.carry_n != 0
                    invariant
                        self.carry_n == 0,
                        self@ == put,
                    decreases self.carry_n,
                {
                    self.putc(0xff);
                    self.carry_n -= 1;
                }
                self.buffer = new_buffer;
            }
            let rr = self.rr;
            assert(rr << 8 == rr * 256) by (bit_vector)
                requires
                    rr < 0x100_0000,
            ;
            self.ll = self.ll << 8;
            self.rr = self.rr << 8;
            assert(self@ == moved_up(here));
        }
    }

    /// End the stream: write the byte that is held back and as many bytes of
    /// the lower end as tell it from the upper end, four at most.
    pub fn finish(&mut self)
        requires
            old(self).wf(),
        ensures
            final(self).out() == finished(old(self)@),
            final(self).out().len() > old(self).out().len(),
            final(self).out().take(old(self).out().len() as int) == old(self).out(),
    {
        let ghost start = self.inner@;
        let ghost goal = finished(self@);
        self.putc(self.buffer);
        proof {
            assert(self.inner@.take(start.len() as int) =~= start);
        }
        let ghost put = self@;
        while self.carry_n != 0
            invariant
                self.carry_n == 0,
                self@ == put,
            decreases self.carry_n,
        {
            self.putc(0xff);
            self.carry_n -= 1;
        }
        let sum = self.ll as u64 + self.rr as u64;
        let mut t = (sum & 0xffff_ffff) as u32;
        let mut rounds: usize = 0;
        while rounds < 4
            invariant_except_break
                self.inner@ + tail_bytes(self.ll, t, (4 - rounds) as nat) =~= goal,
            invariant
                rounds <= 4,
                self.inner@.len() > start.len(),
                self.inner@.take(start.len() as int) == start,
            ensures
                self.inner@ =~= goal,
            decreases 4 - rounds,
        {
            let t8 = t >> 24;
            let ll = self.ll;
            let l8 = ll >> 24;
            assert(l8 < 256) by (bit_vector)
                requires
                    l8 == ll >> 24,
            ;

            let ghost before = self.inner@;
            self.putc(l8 as u8);
            proof {
                assert(self.inner@.take(start.len() as int) =~= before.take(start.len() as int));
            }

            if t8 != l8 {
                break ;
            }
            t = t << 8;
            self.ll = self.ll << 8;
            rounds += 1;
        }
    }

    /// Write one byte.
    fn putc(&mut self, b: u8)
        ensures
            final(self).inner@ == old(self).inner@.push(b),
            final(self).ll == old(self).ll,
            final(self).rr == old(self).rr,
            final(self).buffer == old(self).buffer,
            final(self).start == old(self).start,
            final(self).carry_n == old(self).carry_n,
    {
        self.inner.push(b);
    }

    /// Give up the encoder for the buffer it wrote to.
    pub fn to_inner(self) -> (inner: Vec<u8>)
        ensures
            inner@ == self.out(),
    {
        self.inner
    }
}

/// What a decoder holds between two symbols: the size of the interval, the
/// code value, counted from the lower end of the interval, and the input
/// that was not read.
pub struct DecoderView {
    pub rr: u32,
    pub dd: u32,
    pub unread: Seq<u8>,
}

/// The next byte of the input, or 255 past its end.
pub open spec fn next_of(unread: Seq<u8>) -> u8 {
    if unread.len() > 0 {
        unread[0]
    } else {
        255
    }
}

/// The input after its next byte was read.
pub open spec fn rest_of(unread: Seq<u8>) -> Seq<u8> {
    if unread.len() > 0 {
        unread.skip(1)
    } else {
        unread
    }
}

/// The decoder after it took the next byte of the input into the code
/// value.
pub open spec fn fed(v: DecoderView) -> DecoderView {
    DecoderView {
        rr: v.rr,
        dd: (v.dd << 8) | (next_of(v.unread) as u32),
        unread: rest_of(v.unread),
    }
}

/// The decoder at the start of the input: the code value holds the first
/// four bytes.
pub open spec fn primed(input: Seq<u8>) -> DecoderView {
    fed(fed(fed(fed(DecoderView { rr: 0xffffffff, dd: 0, unread: input }))))
}

/// The place of the code value within the interval, on the scale of a
/// table with the total `total`.
pub open spec fn place(v: DecoderView, total: u32) -> int {
    let r = v.rr as int / total as int;
    let p = v.dd as int / r;
    if total - 1 < p {
        total - 1
    } else {
        p
    }
}

/// The decoder after the interval was narrowed to the range from `lo` to
/// `hi` of a table with the total `total`.
pub open spec fn dec_narrowed(v: DecoderView, lo: u32, hi: u32, total: u32) -> DecoderView {
    let r = v.rr as int / total as int;
    DecoderView {
        rr: (if hi != total {
            r * (hi - lo)
        } else {
            v.rr - r * lo
        }) as u32,
        dd: (v.dd - r * lo) as u32,
        unread: v.unread,
    }
}

/// The decoder after one step of widening, which reads a byte.
pub open spec fn dec_moved_up(v: DecoderView) -> DecoderView {
    fed(DecoderView { rr: (v.rr * 256) as u32, dd: v.dd, unread: v.unread })
}

/// The decoder after the interval was widened until its size is `TOP` or
/// more.
pub open spec fn dec_widened(v: DecoderView) -> DecoderView
    decreases narrowness(v.rr),
{
    if v.rr == 0 || v.rr >= TOP {
        v
    } else {
        dec_widened(dec_moved_up(v))
    }
}

/// The decoder.
pub struct RangeDecoder<'a> {
    rr: u32,
    dd: u32,
    inner: &'a [u8],
    pos: usize,
}

impl<'a> View for RangeDecoder<'a> {
    type V = DecoderView;

    closed spec fn view(&self) -> DecoderView {
        DecoderView { rr: self.rr, dd: self.dd, unread: self.inner@.skip(self.pos as int) }
    }
}

impl<'a> RangeDecoder<'a> {
    /// The input that was not read.
    pub open spec fn unread(&self) -> Seq<u8> {
        self@.unread
    }

    /// The decoder's representation is consistent.
    pub closed spec fn inv(&self) -> bool {
        self.pos <= self.inner@.len()
    }

    /// The decoder can decode a symbol.
    pub open spec fn wf(&self) -> bool {
        self.inv() && self@.rr >= TOP
    }

    /// Create a decoder for the data in `input`.  This reads the first four
    /// bytes.
    pub fn new(input: &'a [u8]) -> (rd: RangeDecoder<'a>)
        ensures
            rd.wf(),
            rd@ == primed(input@),
    {
        let mut rd = RangeDecoder { rr: 0xffffffff, dd: 0, inner: input, pos: 0 };
        proof {
            assert(input@.skip(0) =~= input@);
        }
        rd.feed();
        rd.feed();
        rd.feed();
        rd.feed();
        rd
    }

    /// Take the next byte of the input into the code value.
    fn feed(&mut self)
        requires
            old(self).inv(),
        ensures
            final(self).inv(),
            final(self)@ == fed(old(self)@),
    {
        let b = self.next_byte();
        self.dd = (self.dd << 8) | (b as u32);
    }

    /// The next byte of the input, or 255 past its end.
    pub fn next(&mut self) -> (b: u8)
        requires
            old(self).inv(),
        ensures
            final(self).inv(),
            b == next_of(old(self)@.unread),
            final(self)@ == (DecoderView { unread: rest_of(old(self)@.unread), ..old(self)@ }),
    {
        self.next_byte()
    }

    /// The next byte of the input, or 255 past its end.
    fn next_byte(&mut self) -> (b: u8)
        requires
            old(self).pos <= old(self).inner@.len(),
        ensures
            final(self).pos <= final(self).inner@.len(),
            final(self).inner == old(self).inner,
            final(self).rr == old(self).rr,
            final(self).dd == old(self).dd,
            b == next_of(old(self)@.unread),
            final(self)@.unread == rest_of(old(self)@.unread),
    {
        if self.pos < self.inner.len() {
            let b = self.inner[self.pos];
            proof {
                assert(self.inner@.skip(self.pos as int).skip(1) =~= self.inner@.skip(
                    self.pos + 1,
                ));
            }
            self.pos += 1;
            b
        } else {
            255
        }
    }

    /// Decode a symbol under the table `cum_freq`: the symbol whose range
    /// holds the place of the code value within the interval.
    pub fn decode(&mut self, cum_freq: &[u32]) -> (symbol: u32)
        requires
            old(self).wf(),
            table_ok(cum_freq@),
            cum_freq@.len() <= u32::MAX,
        ensures
            final(self).wf(),
            symbol + 1 < cum_freq@.len(),
            cum_freq@[symbol as int] <= place(old(self)@, cum_freq@[cum_freq@.len() - 1])
                < cum_freq@[symbol + 1],
            final(self)@ == dec_widened(
                dec_narrowed(
                    old(self)@,
                    cum_freq@[symbol as int],
                    cum_freq@[symbol + 1],
                    cum_freq@[cum_freq@.len() - 1],
                ),
            ),
    {
        let ghost v0 = self@;
        let total = cum_freq[cum_freq.len() - 1];

        let r = self.rr / total;
        proof {
            let rr = self.rr as int;
            vstd::arithmetic::div_mod::lemma_fundamental_div_mod(rr, total as int);
            vstd::arithmetic::div_mod::lemma_mod_bound(rr, total as int);
            assert(r >= 1) by (nonlinear_arith)
                requires
                    total * r + total > rr,
                    rr >= 0x100_0000,
                    0 < total <= 0x100_0000,
            ;
        }

        let place = self.dd / r;
        let target_pos = if total - 1 < place {
            total - 1
        } else {
            place
        };

        let mut index: usize = 0;
        let mut i: usize = 0;
        while i < cum_freq.len()
            invariant_except_break
                index == 0,
                forall|j: int| 0 <= j < i ==> #[trigger] cum_freq@[j] <= target_pos,
            invariant
                i <= cum_freq@.len(),
                table_ok(cum_freq@),
                target_pos < total,
                total == cum_freq@[cum_freq@.len() - 1],
            ensures
                index + 1 < cum_freq@.len(),
                cum_freq@[index as int] <= target_pos < cum_freq@[index + 1],
            decreases cum_freq@.len() - i,
        {
            if target_pos < cum_freq[i] {
                assert(i >= 1);
                assert(cum_freq@[i - 1] <= target_pos);
                index = i - 1;
                break ;
            }
            i += 1;
        }

        let lo = cum_freq[index];
        let hi = cum_freq[index + 1];
        assert(hi <= total);
        proof {
            let rr = self.rr as int;
            let dd = self.dd as int;
            vstd::arithmetic::div_mod::lemma_fundamental_div_mod(dd, r as int);
            vstd::arithmetic::div_mod::lemma_mod_bound(dd, r as int);
            assert(r * lo <= dd && r * (hi - lo) <= rr && r * lo <= rr - r && r * (hi - lo) >= 1)
                by (nonlinear_arith)
                requires
                    total * r <= rr,
                    0 <= lo <= target_pos < hi <= total,
                    target_pos <= place,
                    r * place <= dd,
                    r >= 1,
            ;
        }

        self.dd = self.dd - r * lo;

        if hi != total {
            self.rr = r * (hi - lo);
        } else {
            self.rr = self.rr - r * lo;
        }
        let ghost goal = dec_widened(dec_narrowed(v0, lo, hi, total));
        assert(self@ == dec_narrowed(v0, lo, hi, total));

        while self.rr < TOP
            invariant
                self.rr >= 1,
                self.inv(),
                dec_widened(self@) == goal,
            decreases narrowness(self.rr),
        {
            let ghost here = self@;
            let rr = self.rr;
            assert(rr << 8 == rr * 256) by (bit_vector)
                requires
                    rr < 0x100_0000,
            ;
            self.rr = self.rr << 8;
            self.feed();
            assert(self@ == dec_moved_up(here));
        }

        index as u32
    }
}

} // verus!
