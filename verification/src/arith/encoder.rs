//! The encoder of the arithmetic coder.

use vstd::prelude::*;
use crate::arith::interval::{
    doubled_high, doubled_low, interval_ok, lemma_step, narrow, narrowed_high,
    narrowed_low, normalized, step_of, Step, MAX_CODE, ONE_FOURTH, ONE_HALF, THREE_FOURTHS,
};
use crate::arith::model::{
    history, initial_table, lemma_table_grows, lemma_updated_ok, model_ok, replayed, updated,
    State, Symbol, EOF, SYM_CNT,
};
use crate::bitfile::BitWriter;
use crate::bits::{pack_bits, repeat_bit, value_bits};
use crate::error::Error;

verus! {

/// The state of the encoder between two symbols, or between two doubling
/// steps: the interval and the number of bits held back.
pub struct EncState {
    pub low: int,
    pub high: int,
    pub pending: nat,
}

/// The bits that leave the encoder when it settles a bit: the bit itself,
/// and after it as many opposite bits as were held back.
pub open spec fn bit_plus_pending(bit: bool, pending: nat) -> Seq<bool> {
    seq![bit] + repeat_bit(!bit, pending)
}

/// The state in which the doubling steps leave the encoder.
pub open spec fn renormalized(st: EncState) -> EncState
    decreases MAX_CODE - (st.high - st.low),
{
    if !interval_ok(st.low, st.high) {
        st
    } else {
        match step_of(st.low, st.high) {
            Step::Done => st,
            Step::Middle => renormalized(
                EncState {
                    low: doubled_low(st.low, Step::Middle),
                    high: doubled_high(st.high, Step::Middle),
                    pending: st.pending + 1,
                },
            ),
            step => renormalized(
                EncState {
                    low: doubled_low(st.low, step),
                    high: doubled_high(st.high, step),
                    pending: 0,
                },
            ),
        }
    }
}

/// The bits that the doubling steps emit.
pub open spec fn renorm_bits(st: EncState) -> Seq<bool>
    decreases MAX_CODE - (st.high - st.low),
{
    if !interval_ok(st.low, st.high) {
        Seq::empty()
    } else {
        match step_of(st.low, st.high) {
            Step::Done => Seq::empty(),
            Step::Middle => renorm_bits(
                EncState {
                    low: doubled_low(st.low, Step::Middle),
                    high: doubled_high(st.high, Step::Middle),
                    pending: st.pending + 1,
                },
            ),
            step => bit_plus_pending(step == Step::Upper, st.pending) + renorm_bits(
                EncState {
                    low: doubled_low(st.low, step),
                    high: doubled_high(st.high, step),
                    pending: 0,
                },
            ),
        }
    }
}

/// The encoder's state after it narrowed the interval to the range of `sym`
/// in the model `m`, before any doubling.
pub open spec fn narrowed(m: Seq<int>, st: EncState, sym: int) -> EncState {
    EncState {
        low: narrowed_low(st.low, st.high, m[sym], m[SYM_CNT as int]),
        high: narrowed_high(st.low, st.high, m[sym + 1], m[SYM_CNT as int]),
        pending: st.pending,
    }
}

/// The bits that end a stream: one more bit is held back, and the quarter
/// in which the lower end of the interval lies is settled.
pub open spec fn flush_bits(st: EncState) -> Seq<bool> {
    bit_plus_pending(st.low >= ONE_FOURTH, st.pending + 1)
}

/// The bits that the encoder emits for the bytes of `input` and the end of
/// the stream, from the model `m` and the state `st`.
pub open spec fn encoded_bits(m: Seq<int>, st: EncState, input: Seq<u8>) -> Seq<bool>
    decreases input.len(),
{
    if input.len() == 0 {
        renorm_bits(narrowed(m, st, EOF as int)) + flush_bits(
            renormalized(narrowed(m, st, EOF as int)),
        )
    } else {
        renorm_bits(narrowed(m, st, input[0] as int)) + encoded_bits(
            updated(m, input[0] as int),
            renormalized(narrowed(m, st, input[0] as int)),
            input.skip(1),
        )
    }
}

/// The state in which every stream starts: the interval is the whole code
/// space and no bit is held back.
pub open spec fn initial_state() -> EncState {
    EncState { low: 0, high: MAX_CODE as int, pending: 0 }
}

/// The compressed form of `input` under the model `m`: the emitted bits,
/// packed into bytes.
pub open spec fn encoded(m: Seq<int>, input: Seq<u8>) -> Seq<u8> {
    pack_bits(encoded_bits(m, initial_state(), input))
}

/// The doubling steps leave a normalized interval, and hold back at most
/// one more bit per step.
pub proof fn lemma_renormalized(st: EncState)
    requires
        interval_ok(st.low, st.high),
    ensures
        normalized(renormalized(st).low, renormalized(st).high),
        renormalized(st).pending + (MAX_CODE - (renormalized(st).high - renormalized(st).low))
            <= st.pending + (MAX_CODE - (st.high - st.low)),
    decreases MAX_CODE - (st.high - st.low),
{
    lemma_step(st.low, st.high);
    match step_of(st.low, st.high) {
        Step::Done => {},
        Step::Middle => {
            lemma_renormalized(
                EncState {
                    low: doubled_low(st.low, Step::Middle),
                    high: doubled_high(st.high, Step::Middle),
                    pending: st.pending + 1,
                },
            );
        },
        step => {
            lemma_renormalized(
                EncState {
                    low: doubled_low(st.low, step),
                    high: doubled_high(st.high, step),
                    pending: 0,
                },
            );
        },
    }
}

/// An arithmetic encoder.
pub struct Encoder {
    state: State,
}

impl Encoder {
    /// The table of the encoder's model.
    pub closed spec fn view(&self) -> Seq<int> {
        self.state@
    }

    /// The encoder's model is in order.
    pub open spec fn wf(&self) -> bool {
        model_ok(self@)
    }

    /// Create a new encoder.  The encoder can only be used to compress one
    /// data stream.
    pub fn new() -> (enc: Encoder)
        ensures
            enc.wf(),
            enc@ == initial_table(),
    {
        Encoder { state: State::new() }
    }

    /// The count of every symbol in the model.
    pub fn counts(&self) -> (v: Vec<u64>)
        requires
            self.wf(),
        ensures
            v@.len() == SYM_CNT,
            forall|s: int| 0 <= s < SYM_CNT ==> v@[s] == crate::arith::model::count_of(self@, s),
    {
        self.state.counts()
    }

    /// Seed the model as if the encoder had seen each symbol of `counts` as
    /// often as its pair says.
    pub fn preload(&mut self, counts: &[(u8, u64)])
        requires
            old(self).wf(),
        ensures
            final(self).wf(),
            final(self)@ == replayed(old(self)@, history(counts@)),
    {
        self.state.preload(counts);
    }

    /// Write `bit`, and after it as many opposite bits as are held back;
    /// then none is held back.
    pub fn output_bit_plus_pending(bit: usize, pending_bits: &mut u128, bw: &mut BitWriter) -> (r:
        Result<(), Error>)
        requires
            bit <= 1,
            old(bw).wf(),
        ensures
            r is Ok,
            final(bw).wf(),
            *final(pending_bits) == 0,
            final(bw).bits() == old(bw).bits() + bit_plus_pending(
                bit == 1,
                *old(pending_bits) as nat,
            ),
    {
        proof {
            lemma_single_bit(bit == 1);
        }
        let _ = bw.write_bits(bit as u64, 1);
        let ghost total = *pending_bits as nat;
        while *pending_bits > 0
            invariant
                bw.wf(),
                bit <= 1,
                *pending_bits <= total,
                bw.bits() == old(bw).bits() + seq![bit == 1] + repeat_bit(
                    bit != 1,
                    (total - *pending_bits) as nat,
                ),
            decreases *pending_bits,
        {
            proof {
                lemma_single_bit(bit != 1);
                assert(repeat_bit(bit != 1, (total - *pending_bits + 1) as nat) =~= repeat_bit(
                    bit != 1,
                    (total - *pending_bits) as nat,
                ) + seq![bit != 1]);
            }
            let _ = bw.write_bits((1 - bit) as u64, 1);
            *pending_bits -= 1;
        }
        Ok(())
    }

    /// Widen the interval by doubling steps until it is normalized, writing
    /// or holding back one bit per step.
    pub fn renormalize(low: u64, high: u64, pending_bits: u128, bw: &mut BitWriter) -> (r: (
        u64,
        u64,
        u128,
    ))
        requires
            interval_ok(low as int, high as int),
            pending_bits + MAX_CODE <= u128::MAX,
            old(bw).wf(),
        ensures
            final(bw).wf(),
            (EncState { low: r.0 as int, high: r.1 as int, pending: r.2 as nat }) == renormalized(
                EncState { low: low as int, high: high as int, pending: pending_bits as nat },
            ),
            final(bw).bits() == old(bw).bits() + renorm_bits(
                EncState { low: low as int, high: high as int, pending: pending_bits as nat },
            ),
            normalized(r.0 as int, r.1 as int),
            r.2 <= pending_bits + MAX_CODE,
    {
        let ghost start = EncState {
            low: low as int,
            high: high as int,
            pending: pending_bits as nat,
        };
        let mut l = low;
        let mut h = high;
        let mut pb = pending_bits;
        proof {
            lemma_renormalized(start);
        }
        loop
            invariant
                bw.wf(),
                start == (EncState {
                    low: low as int,
                    high: high as int,
                    pending: pending_bits as nat,
                }),
                interval_ok(l as int, h as int),
                pb + (MAX_CODE - (h - l)) <= start.pending + (MAX_CODE - (start.high - start.low)),
                start.pending + MAX_CODE <= u128::MAX,
                interval_ok(start.low, start.high),
                renormalized(EncState { low: l as int, high: h as int, pending: pb as nat })
                    == renormalized(start),
                bw.bits() + renorm_bits(
                    EncState { low: l as int, high: h as int, pending: pb as nat },
                ) == old(bw).bits() + renorm_bits(start),
            ensures
                bw.wf(),
                (EncState { low: l as int, high: h as int, pending: pb as nat }) == renormalized(
                    start,
                ),
                bw.bits() == old(bw).bits() + renorm_bits(start),
                pb <= start.pending + MAX_CODE,
            decreases MAX_CODE - (h - l),
        {
            let ghost here = EncState { low: l as int, high: h as int, pending: pb as nat };
            proof {
                lemma_step(l as int, h as int);
            }
            if h < ONE_HALF {
                let ghost before = bw.bits();
                let _ = Self::output_bit_plus_pending(0, &mut pb, bw);
                proof {
                    let next = EncState {
                        low: doubled_low(l as int, Step::Lower),
                        high: doubled_high(h as int, Step::Lower),
                        pending: 0,
                    };
                    assert(renorm_bits(here) == bit_plus_pending(false, here.pending)
                        + renorm_bits(next));
                    assert(bw.bits() + renorm_bits(next) =~= before + renorm_bits(here));
                }
            } else if l >= ONE_HALF {
                let ghost before = bw.bits();
                let _ = Self::output_bit_plus_pending(1, &mut pb, bw);
                proof {
                    let next = EncState {
                        low: doubled_low(l as int, Step::Upper),
                        high: doubled_high(h as int, Step::Upper),
                        pending: 0,
                    };
                    assert(renorm_bits(here) == bit_plus_pending(true, here.pending) + renorm_bits(
                        next,
                    ));
                    assert(bw.bits() + renorm_bits(next) =~= before + renorm_bits(here));
                }
                l -= ONE_HALF;
                h -= ONE_HALF;
            } else if l >= ONE_FOURTH && h < THREE_FOURTHS {
                pb += 1;
                l -= ONE_FOURTH;
                h -= ONE_FOURTH;
            } else {
                proof {
                    assert(renorm_bits(here) =~= Seq::<bool>::empty());
                    assert(bw.bits() + renorm_bits(here) =~= bw.bits());
                }
                break ;
            }
            h = 2 * h + 1;
            l = 2 * l;
        }
        (l, h, pb)
    }

    /// Compress the bytes of `input` and append the compressed data to
    /// `output`.
    pub fn compress(self, input: &[u8], output: Vec<u8>) -> (r: Result<Vec<u8>, Error>)
        requires
            self.wf(),
        ensures
            r matches Ok(out) && out@ == output@ + encoded(self@, input@),
    {
        let mut state = self.state;
        let mut outp = BitWriter::new(output);

        let mut low: u64 = 0;
        let mut high: u64 = MAX_CODE;
        let mut pending_bits: u128 = 0;
        let ghost m0 = self@;
        let ghost bits0 = outp.bits();
        proof {
            assert(bits0 =~= crate::bits::bytes_to_bits(output@));
            assert(input@.skip(0) =~= input@);
        }

        let mut i: usize = 0;
        loop
            invariant_except_break
                state.wf(),
                normalized(low as int, high as int),
                pending_bits <= i * 0x1_0000_0000,
                outp.bits() + encoded_bits(
                    state@,
                    EncState { low: low as int, high: high as int, pending: pending_bits as nat },
                    input@.skip(i as int),
                ) == bits0 + encoded_bits(m0, initial_state(), input@),
            invariant
                outp.wf(),
                bits0 == crate::bits::bytes_to_bits(output@),
                i <= input@.len(),
            ensures
                outp.wf(),
                outp.bits() == bits0 + encoded_bits(m0, initial_state(), input@),
            decreases input@.len() - i,
        {
            // The end of the input becomes the end-of-stream symbol.
            let c: Symbol = if i >= input.len() {
                EOF
            } else {
                input[i] as Symbol
            };
            let ghost here = EncState {
                low: low as int,
                high: high as int,
                pending: pending_bits as nat,
            };
            let ghost m = state@;
            let ghost rest = input@.skip(i as int);
            let ghost before = outp.bits();
            proof {
                lemma_table_grows(m, 0, c as int);
                lemma_table_grows(m, c + 1, SYM_CNT as int);
                assert(m[c as int] < m[c + 1]);
                lemma_updated_ok(m, c as int);
                if i < input@.len() {
                    assert(rest[0] == input@[i as int]);
                    assert(rest.skip(1) =~= input@.skip(i + 1));
                }
            }

            let p = state.get_prob_and_update(c);
            let (nl, nh) = narrow(low, high, &p);
            let (l, h, pb) = Self::renormalize(nl, nh, pending_bits, &mut outp);
            low = l;
            high = h;
            pending_bits = pb;

            // When the end of the stream is encoded, terminate the loop.
            if c == EOF {
                // Settle the quarter in which the lower end lies, so that the
                // decoder can tell the last symbol.
                pending_bits += 1;
                if low < ONE_FOURTH {
                    let _ = Self::output_bit_plus_pending(0, &mut pending_bits, &mut outp);
                } else {
                    let _ = Self::output_bit_plus_pending(1, &mut pending_bits, &mut outp);
                }
                proof {
                    assert(outp.bits() =~= before + (renorm_bits(narrowed(m, here, EOF as int))
                        + flush_bits(renormalized(narrowed(m, here, EOF as int)))));
                }
                break ;
            }
            proof {
                assert(outp.bits() + encoded_bits(
                    state@,
                    EncState { low: low as int, high: high as int, pending: pending_bits as nat },
                    input@.skip(i + 1),
                ) =~= before + encoded_bits(m, here, rest));
            }
            i += 1;
        }
        // Flush the unfinished byte and return the buffer.
        let _ = outp.flush();
        proof {
            lemma_pack_appended(output@, encoded_bits(m0, initial_state(), input@));
        }
        Ok(outp.to_inner())
    }
}

/// The lowest bit of zero or one, as a sequence of one bit.
pub proof fn lemma_single_bit(bit: bool)
    ensures
        value_bits(if bit { 1u64 } else { 0u64 }, 1) =~= seq![bit],
{
    vstd::arithmetic::power2::lemma2_to64();
}

/// Packing bits that follow whole bytes leaves the bytes as they are.
pub proof fn lemma_pack_appended(bytes: Seq<u8>, bits: Seq<bool>)
    ensures
        pack_bits(crate::bits::bytes_to_bits(bytes) + bits) =~= bytes + pack_bits(bits),
{
    let all = crate::bits::bytes_to_bits(bytes) + bits;
    let n = bytes.len() as int;
    assert(pack_bits(all).len() == n + pack_bits(bits).len());
    assert forall|j: int| 0 <= j < pack_bits(all).len() implies pack_bits(all)[j] == (bytes
        + pack_bits(bits))[j] by {
        if j < n {
            let whole = all.take(8 * j + 8);
            assert forall|i: int| 0 <= i < 8 implies whole[8 * j + i] == crate::bits::byte_bit(
                bytes[j],
                i,
            ) by {
                assert((8 * j + i) / 8 == j);
                assert((8 * j + i) % 8 == i);
            }
            crate::bits::lemma_pack_partial(whole, j, bytes[j], 8);
            assert(crate::bits::packed_byte(whole, j) == crate::bits::packed_byte(all, j));
        } else {
            assert(crate::bits::bit_or_zero(all, 8 * j) == crate::bits::bit_or_zero(
                bits,
                8 * (j - n),
            ));
            assert(crate::bits::packed_byte(all, j) == crate::bits::packed_byte(bits, j - n));
        }
    }
}

} // verus!
