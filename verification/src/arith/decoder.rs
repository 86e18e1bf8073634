//! The decoder of the arithmetic coder.

use vstd::prelude::*;
use crate::arith::interval::{
    doubled_high, doubled_low, interval_ok, lemma_count_to_interval, lemma_narrow, lemma_step,
    narrow, narrowed_high, narrowed_low, normalized, scaled_count, step_of, step_offset, Step,
    MAX_CODE, ONE_FOURTH, ONE_HALF, THREE_FOURTHS,
};
use crate::arith::model::{
    history, initial_table, lemma_symbol_at, lemma_table_grows, lemma_updated_ok, model_ok,
    replayed, symbol_at, updated, State, EOF, SYM_CNT,
};
use crate::bitfile::{BitReader, BitSource};
use crate::bits::{bits_value, bytes_to_bits, lemma_bits_value_bound};
use crate::error::Error;

verus! {

/// The number of bits that the decoder may read past the end of its input.
pub const EXTRA_BITS: usize = 64;

/// The number of bits of a code value.
pub const CODE_BITS: usize = 32;

/// The state of the decoder between two symbols, or between two doubling
/// steps: the interval, the code value, which is the window of the input
/// that the decoder looks at, and the bits that follow the window.
pub struct DecState {
    pub low: int,
    pub high: int,
    pub value: int,
    pub src: BitSource,
}

/// The decoder can go on from this state: the interval is normalized and
/// the code value lies within it.
pub open spec fn dec_ok(st: DecState) -> bool {
    normalized(st.low, st.high) && st.low <= st.value <= st.high
}

/// A bit as a number.
pub open spec fn bit_int(bit: bool) -> int {
    if bit {
        1
    } else {
        0
    }
}

/// The state after one doubling step, which takes the next bit into the
/// code value.
pub open spec fn dec_doubled(st: DecState, step: Step) -> DecState {
    DecState {
        low: doubled_low(st.low, step),
        high: doubled_high(st.high, step),
        value: 2 * (st.value - step_offset(step)) + bit_int(st.src.head()),
        src: st.src.tail(),
    }
}

/// The state in which the doubling steps leave the decoder, or `None`
/// where the input ends before the interval is normalized.
pub open spec fn dec_renormalized(st: DecState) -> Option<DecState>
    decreases MAX_CODE - (st.high - st.low),
{
    if !interval_ok(st.low, st.high) {
        Some(st)
    } else {
        match step_of(st.low, st.high) {
            Step::Done => Some(st),
            step => if st.src.remaining() == 0 {
                None
            } else {
                dec_renormalized(dec_doubled(st, step))
            },
        }
    }
}

/// The symbol that the decoder finds in the state `st` under the model `m`.
pub open spec fn dec_symbol(m: Seq<int>, st: DecState) -> int {
    symbol_at(m, scaled_count(st.low, st.high, st.value, m[SYM_CNT as int]))
}

/// The decoder's state after it narrowed the interval to the range of
/// `sym`, before any doubling.
pub open spec fn dec_narrowed(m: Seq<int>, st: DecState, sym: int) -> DecState {
    DecState {
        low: narrowed_low(st.low, st.high, m[sym], m[SYM_CNT as int]),
        high: narrowed_high(st.low, st.high, m[sym + 1], m[SYM_CNT as int]),
        value: st.value,
        src: st.src,
    }
}

/// A result with `done` put before the bytes of a success.
pub open spec fn after(done: Seq<u8>, r: Result<Seq<u8>, Error>) -> Result<Seq<u8>, Error> {
    match r {
        Ok(s) => Ok(done + s),
        Err(e) => Err(e),
    }
}

/// The bytes that the decoder finds from the state `st` under the model
/// `m`, up to the end-of-stream symbol; or the failure where the input ends
/// before that symbol and the doubling steps after it are through.
pub open spec fn decoded_from(m: Seq<int>, st: DecState) -> Result<Seq<u8>, Error>
    decreases st.src.remaining(), st.high - st.low,
    when model_ok(m) && dec_ok(st)
{
    match dec_renormalized(dec_narrowed(m, st, dec_symbol(m, st))) {
        None => Err(Error::UnexpectedEof),
        Some(next) => if dec_symbol(m, st) == EOF {
            Ok(Seq::empty())
        } else {
            proof {
                lemma_dec_symbol(m, st);
                lemma_dec_renormalized(dec_narrowed(m, st, dec_symbol(m, st)));
            }
            after(
                seq![dec_symbol(m, st) as u8],
                decoded_from(updated(m, dec_symbol(m, st)), next),
            )
        },
    }
}

/// The state in which the decoder starts on `input`: the interval is the
/// whole code space and the code value is made of the first bits.
pub open spec fn dec_initial(input: Seq<u8>) -> DecState {
    let src = BitSource { bits: bytes_to_bits(input), extra: EXTRA_BITS as nat };
    DecState {
        low: 0,
        high: MAX_CODE as int,
        value: bits_value(src.take(CODE_BITS as nat)) as int,
        src: src.skip(CODE_BITS as nat),
    }
}

/// What decompressing `input` under the model `m` gives.
pub open spec fn decoded(m: Seq<int>, input: Seq<u8>) -> Result<Seq<u8>, Error> {
    decoded_from(m, dec_initial(input))
}

/// The doubling steps keep the code value within the interval and leave the
/// interval normalized; they read one bit per step, so that where no bit was
/// read the interval is as it was.
pub proof fn lemma_dec_renormalized(st: DecState)
    requires
        interval_ok(st.low, st.high),
        st.low <= st.value <= st.high,
    ensures
        dec_renormalized(st) matches Some(next) ==> dec_ok(next) && next.src.remaining()
            <= st.src.remaining() && (next.src.remaining() == st.src.remaining() ==> next == st),
    decreases MAX_CODE - (st.high - st.low),
{
    lemma_step(st.low, st.high);
    match step_of(st.low, st.high) {
        Step::Done => {},
        step => {
            if st.src.remaining() > 0 {
                lemma_dec_renormalized(dec_doubled(st, step));
            }
        },
    }
}

/// The decoder finds a symbol, and the code value lies within the interval
/// narrowed to the range of that symbol, which is smaller than the interval.
pub proof fn lemma_dec_symbol(m: Seq<int>, st: DecState)
    requires
        model_ok(m),
        dec_ok(st),
    ensures
        0 <= scaled_count(st.low, st.high, st.value, m[SYM_CNT as int]) < m[SYM_CNT as int],
        0 <= dec_symbol(m, st) < SYM_CNT,
        interval_ok(
            dec_narrowed(m, st, dec_symbol(m, st)).low,
            dec_narrowed(m, st, dec_symbol(m, st)).high,
        ),
        st.low <= dec_narrowed(m, st, dec_symbol(m, st)).low <= st.value <= dec_narrowed(
            m,
            st,
            dec_symbol(m, st),
        ).high <= st.high,
        dec_narrowed(m, st, dec_symbol(m, st)).high - dec_narrowed(m, st, dec_symbol(m, st)).low
            < st.high - st.low,
        model_ok(updated(m, dec_symbol(m, st))),
{
    let total = m[SYM_CNT as int];
    lemma_table_grows(m, 0, SYM_CNT as int);
    lemma_count_to_interval(st.low, st.high, st.value, 0, total, total);
    let count = scaled_count(st.low, st.high, st.value, total);
    lemma_symbol_at(m, count);
    let sym = dec_symbol(m, st);
    lemma_table_grows(m, 0, sym);
    lemma_table_grows(m, sym + 1, SYM_CNT as int);
    lemma_count_to_interval(st.low, st.high, st.value, m[sym], m[sym + 1], total);
    lemma_narrow(st.low, st.high, m[sym], m[sym + 1], total);
    lemma_updated_ok(m, sym);
    // Another symbol has a range of its own, so this one is not the whole.
    if sym > 0 {
        assert(m[0int] < m[0int + 1]);
        lemma_table_grows(m, 1, sym);
    } else {
        assert(m[1int] < m[1int + 1]);
        lemma_table_grows(m, 2, SYM_CNT as int);
    }
}

/// The decoder starts in a state from which it can go on.
pub proof fn lemma_dec_initial(input: Seq<u8>)
    ensures
        dec_ok(dec_initial(input)),
{
    let src = BitSource { bits: bytes_to_bits(input), extra: EXTRA_BITS as nat };
    src.lemma_take_one_more(CODE_BITS as nat);
    lemma_bits_value_bound(src.take(CODE_BITS as nat));
    vstd::arithmetic::power2::lemma2_to64();
}

/// Decoding fails in one way only: the input, with the zero bits that may
/// be read after it, ends before the end-of-stream symbol is through.
pub proof fn lemma_decoding_fails_at_the_end(m: Seq<int>, st: DecState)
    requires
        model_ok(m),
        dec_ok(st),
    ensures
        decoded_from(m, st) matches Err(e) ==> e == Error::UnexpectedEof,
    decreases st.src.remaining(), st.high - st.low,
{
    let sym = dec_symbol(m, st);
    lemma_dec_symbol(m, st);
    lemma_dec_renormalized(dec_narrowed(m, st, sym));
    match dec_renormalized(dec_narrowed(m, st, sym)) {
        None => {},
        Some(next) => {
            if sym != EOF {
                lemma_decoding_fails_at_the_end(updated(m, sym), next);
            }
        },
    }
}

/// An arithmetic decoder.
pub struct Decoder {
    state: State,
}

impl Decoder {
    /// The table of the decoder's model.
    pub closed spec fn view(&self) -> Seq<int> {
        self.state@
    }

    /// The decoder's model is in order.
    pub open spec fn wf(&self) -> bool {
        model_ok(self@)
    }

    /// Create a new decoder.  The decoder can only be used to decompress
    /// one data stream.
    pub fn new() -> (dec: Decoder)
        ensures
            dec.wf(),
            dec@ == initial_table(),
    {
        Decoder { state: State::new() }
    }

    /// The count of every symbol in the model.
    pub fn counts(&self) -> (v: Vec<u64>)
        requires
            self.wf(),
        ensures
            v@.len() == SYM_CNT,
            forall|s: int| 0 <= s < SYM_CNT ==> v@[s] == crate::arith::model::count_of(self@, s),
    {
        self.state.counts()
    }

    /// Seed the model as if the decoder had seen each symbol of `counts` as
    /// often as its pair says.
    pub fn preload(&mut self, counts: &[(u8, u64)])
        requires
            old(self).wf(),
        ensures
            final(self).wf(),
            final(self)@ == replayed(old(self)@, history(counts@)),
    {
        self.state.preload(counts);
    }

    /// Widen the interval by doubling steps until it is normalized, taking
    /// one bit of input into the code value per step.
    pub fn renormalize(low: u64, high: u64, value: u64, inp: &mut BitReader) -> (r: Result<
        (u64, u64, u64),
        Error,
    >)
        requires
            interval_ok(low as int, high as int),
            low <= value <= high,
            old(inp).wf(),
        ensures
            final(inp).wf(),
            match dec_renormalized(
                DecState { low: low as int, high: high as int, value: value as int, src: old(inp)@ },
            ) {
                Some(next) => r == Ok::<(u64, u64, u64), Error>(
                    (next.low as u64, next.high as u64, next.value as u64),
                ) && final(inp)@ == next.src && interval_ok(next.low, next.high) && next.low
                    <= next.value <= next.high,
                None => r == Err::<(u64, u64, u64), Error>(Error::UnexpectedEof),
            },
    {
        let ghost start = DecState {
            low: low as int,
            high: high as int,
            value: value as int,
            src: inp@,
        };
        let mut l = low;
        let mut h = high;
        let mut v = value;
        loop
            invariant
                inp.wf(),
                start == (DecState {
                    low: low as int,
                    high: high as int,
                    value: value as int,
                    src: old(inp)@,
                }),
                interval_ok(l as int, h as int),
                l <= v <= h,
                dec_renormalized(
                    DecState { low: l as int, high: h as int, value: v as int, src: inp@ },
                ) == dec_renormalized(start),
            ensures
                inp.wf(),
                interval_ok(l as int, h as int),
                l <= v <= h,
                dec_renormalized(start) == Some(
                    DecState { low: l as int, high: h as int, value: v as int, src: inp@ },
                ),
            decreases MAX_CODE - (h - l),
        {
            let ghost here = DecState {
                low: l as int,
                high: h as int,
                value: v as int,
                src: inp@,
            };
            proof {
                lemma_step(l as int, h as int);
            }
            if h < ONE_HALF {
                // Nothing to subtract: the bit is a zero.
            } else if l >= ONE_HALF {
                v -= ONE_HALF;
                l -= ONE_HALF;
                h -= ONE_HALF;
            } else if l >= ONE_FOURTH && h < THREE_FOURTHS {
                v -= ONE_FOURTH;
                l -= ONE_FOURTH;
                h -= ONE_FOURTH;
            } else {
                break ;
            }
            let bit = match inp.read_bit() {
                Ok(b) => b,
                Err(e) => {
                    assert(dec_renormalized(here) is None);
                    return Err(e);
                },
            };
            assert(dec_renormalized(here) == dec_renormalized(
                dec_doubled(here, step_of(here.low, here.high)),
            ));
            l = 2 * l;
            h = 2 * h + 1;
            v = 2 * v + if bit {
                1
            } else {
                0
            };
        }
        Ok((l, h, v))
    }

    /// Decompress the data in `input` and append the decompressed bytes to
    /// `output`.  Fails where the input, and the zero bits that may be read
    /// after it, end before the end-of-stream symbol is through.
    pub fn decompress(self, input: &[u8], output: Vec<u8>) -> (r: Result<Vec<u8>, Error>)
        requires
            self.wf(),
        ensures
            match decoded(self@, input@) {
                Ok(s) => r matches Ok(out) && out@ == output@ + s,
                Err(e) => r matches Err(x) && x == e,
            },
            r matches Err(e) ==> e == Error::UnexpectedEof,
    {
        let mut state = self.state;
        let ghost old_output = output@;
        let mut output = output;
        let mut inp = BitReader::new_with_extra(input, EXTRA_BITS);
        let ghost src0 = inp@;

        let mut low: u64 = 0;
        let mut high: u64 = MAX_CODE;
        proof {
            src0.lemma_take_one_more(CODE_BITS as nat);
            lemma_bits_value_bound(src0.take(CODE_BITS as nat));
            vstd::arithmetic::power2::lemma2_to64();
        }
        let mut value: u64 = match inp.read_bits(CODE_BITS) {
            Ok(v) => v,
            Err(e) => {
                return Err(e);
            },
        };
        let ghost done: Seq<u8> = Seq::empty();
        let ghost out0 = output@;
        let ghost goal = decoded(self@, input@);
        proof {
            assert(goal == after(
                done,
                decoded_from(
                    state@,
                    DecState { low: low as int, high: high as int, value: value as int, src: inp@ },
                ),
            ));
        }

        loop
            invariant_except_break
                state.wf(),
                dec_ok(
                    DecState { low: low as int, high: high as int, value: value as int, src: inp@ },
                ),
                goal == after(
                    done,
                    decoded_from(
                        state@,
                        DecState {
                            low: low as int,
                            high: high as int,
                            value: value as int,
                            src: inp@,
                        },
                    ),
                ),
            invariant
                inp.wf(),
                output@ == out0 + done,
                out0 == old_output,
                goal == decoded(self@, input@),
            ensures
                goal == Ok::<Seq<u8>, Error>(done),
            decreases inp@.remaining(), high - low,
        {
            let ghost m = state@;
            let ghost here = DecState {
                low: low as int,
                high: high as int,
                value: value as int,
                src: inp@,
            };
            proof {
                lemma_dec_symbol(m, here);
                lemma_dec_renormalized(dec_narrowed(m, here, dec_symbol(m, here)));
                assert((value - low + 1) * state@[SYM_CNT as int] <= 0x1_0000_0000 * 0x3fff)
                    by (nonlinear_arith)
                    requires
                        0 <= value - low + 1 <= 0x1_0000_0000,
                        0 <= state@[SYM_CNT as int] <= 0x3fff,
                ;
                assert((value - low + 1) * state@[SYM_CNT as int] >= 1) by (nonlinear_arith)
                    requires
                        1 <= value - low + 1,
                        1 <= state@[SYM_CNT as int],
                ;
            }
            let range: u64 = high - low + 1;
            let count: u64 = ((value - low + 1) * state.get_count() - 1) / range;

            let (p, c) = state.get_symbol_and_update(count);
            proof {
                assert(c as int == dec_symbol(m, here));
                assert(m[c as int] < m[c + 1]);
                lemma_table_grows(m, c + 1, SYM_CNT as int);
            }
            let (nl, nh) = narrow(low, high, &p);
            match Self::renormalize(nl, nh, value, &mut inp) {
                Ok((l, h, v)) => {
                    low = l;
                    high = h;
                    value = v;
                },
                Err(e) => {
                    return Err(e);
                },
            }

            if c == EOF {
                proof {
                    assert(done + Seq::<u8>::empty() =~= done);
                }
                break ;
            }
            output.push(c as u8);
            proof {
                let next = decoded_from(
                    state@,
                    DecState { low: low as int, high: high as int, value: value as int, src: inp@ },
                );
                assert(after(done, after(seq![c as u8], next)) == after(done.push(c as u8), next))
                    by {
                    if let Ok(s) = next {
                        assert(done + (seq![c as u8] + s) =~= done.push(c as u8) + s);
                    }
                }
                done = done.push(c as u8);
                assert(output@ =~= out0 + done);
            }
        }

        Ok(output)
    }
}

} // verus!
