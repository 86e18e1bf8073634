//! The decoder finds what the encoder coded.
//!
//! The encoder never transmits its interval.  What makes its output
//! decodable is that at every step the window of the output that the decoder
//! looks at lies within the encoder's interval at that step.  This module
//! proves that, and from it that decoding the encoded form of any input
//! gives the input back.

use vstd::prelude::*;
use vstd::arithmetic::power2::{lemma2_to64, lemma_pow2_unfold, pow2};
use crate::arith::decoder::{
    after, dec_doubled, dec_initial, dec_narrowed, dec_ok, dec_renormalized, dec_symbol, decoded,
    decoded_from, lemma_dec_initial, lemma_decoding_fails_at_the_end, DecState, CODE_BITS,
    EXTRA_BITS,
};
use crate::arith::encoder::{
    bit_plus_pending, encoded, encoded_bits, flush_bits, initial_state, lemma_renormalized,
    narrowed, renorm_bits, renormalized, EncState,
};
use crate::arith::interval::{
    doubled_high, doubled_low, interval_ok, lemma_interval_to_count, lemma_narrow, lemma_step,
    normalized, scaled_count, step_of, Step, MAX_CODE, ONE_FOURTH, ONE_HALF,
};
use crate::arith::model::{
    initial_table, lemma_find_symbol, lemma_table_grows, lemma_updated_ok, model_ok, updated, EOF,
    SYM_CNT,
};
use crate::bitfile::BitSource;
use crate::bits::{
    agree, lemma_unpack, bit_or_zero, bits_value, bytes_to_bits, repeat_bit, weight,
};
use crate::error::Error;

verus! {

/// Bit `i` of `bits` as a number, zero past the end.
pub open spec fn bit_at(bits: Seq<bool>, i: int) -> int {
    if bit_or_zero(bits, i) {
        1
    } else {
        0
    }
}

/// The number that the `n` bits of `bits` from `from` on spell, most
/// significant first, with zeros past the end.
pub open spec fn span_value(bits: Seq<bool>, from: int, n: nat) -> int
    decreases n,
{
    if n == 0 {
        0
    } else {
        2 * span_value(bits, from, (n - 1) as nat) + bit_at(bits, from + n - 1)
    }
}

/// The code value that the decoder holds when the encoder is about to emit
/// bit `at` of `bits` and holds back `pending` bits: the bit at `at`,
/// followed by the 31 bits after the `pending` bits that come behind it.
pub open spec fn window_value(bits: Seq<bool>, at: int, pending: nat) -> int {
    bit_at(bits, at) * ONE_HALF + span_value(bits, at + pending + 1, 31)
}

/// The output from `at` on starts with a bit and `pending` opposite bits,
/// and at least one more bit follows.
pub open spec fn held_back(bits: Seq<bool>, at: int, pending: nat) -> bool {
    &&& 0 <= at
    &&& at + pending + 2 <= bits.len()
    &&& forall|i: int| 1 <= i <= pending ==> #[trigger] bits[at + i] == !bits[at]
}

/// The bits `part` stand in `bits` from `at` on.
pub open spec fn has_at(bits: Seq<bool>, at: int, part: Seq<bool>) -> bool {
    &&& 0 <= at
    &&& at + part.len() <= bits.len()
    &&& forall|i: int| 0 <= i < part.len() ==> bits[at + i] == #[trigger] part[i]
}

/// The first of `n + 1` bits has the weight of two to the `n`.
pub proof fn lemma_span_front(bits: Seq<bool>, from: int, n: nat)
    ensures
        span_value(bits, from, n + 1) == bit_at(bits, from) * pow2(n) + span_value(
            bits,
            from + 1,
            n,
        ),
    decreases n,
{
    if n == 0 {
        lemma2_to64();
        assert(span_value(bits, from, 1) == 2 * span_value(bits, from, 0) + bit_at(bits, from));
    } else {
        lemma_span_front(bits, from, (n - 1) as nat);
        lemma_pow2_unfold(n);
        assert(span_value(bits, from, n + 1) == 2 * span_value(bits, from, n) + bit_at(
            bits,
            from + n,
        ));
        assert(span_value(bits, from + 1, n) == 2 * span_value(bits, from + 1, (n - 1) as nat)
            + bit_at(bits, from + n));
        let b = bit_at(bits, from);
        let whole = pow2(n) as int;
        let half = pow2((n - 1) as nat) as int;
        assert(b * whole == 2 * (b * half)) by (nonlinear_arith)
            requires
                whole == 2 * half,
        ;
    }
}

/// Past the end of the bits every span is zero.
pub proof fn lemma_span_zero(bits: Seq<bool>, from: int, n: nat)
    requires
        from >= bits.len(),
    ensures
        span_value(bits, from, n) == 0,
    decreases n,
{
    if n > 0 {
        lemma_span_zero(bits, from, (n - 1) as nat);
    }
}

/// Sequences that agree have the same spans.
pub proof fn lemma_span_agree(a: Seq<bool>, b: Seq<bool>, from: int, n: nat)
    requires
        agree(a, b),
        0 <= from,
    ensures
        span_value(a, from, n) == span_value(b, from, n),
    decreases n,
{
    if n > 0 {
        lemma_span_agree(a, b, from, (n - 1) as nat);
        assert(bit_or_zero(a, from + n - 1) == bit_or_zero(b, from + n - 1));
    }
}

/// The code window as a span of 32 bits, where no bit is held back.
pub proof fn lemma_window_is_span(bits: Seq<bool>, at: int)
    ensures
        window_value(bits, at, 0) == span_value(bits, at, 32),
        window_value(bits, at, 0) == 2 * span_value(bits, at, 31) + bit_at(bits, at + 31),
{
    lemma_span_front(bits, at, 31);
    lemma2_to64();
}

/// After `n` bits a source stands at bit `n` of its data, and gives zeros
/// past their end.
pub proof fn lemma_skip_head(src: BitSource, n: nat)
    ensures
        src.skip(n).head() == bit_or_zero(src.bits, n as int),
    decreases n,
{
    if n > 0 {
        lemma_skip_head(src.tail(), (n - 1) as nat);
    }
}

/// The first `n` bits that a source gives spell the span of the first `n`
/// bits of its data.
pub proof fn lemma_take_is_span(src: BitSource, n: nat)
    ensures
        bits_value(src.take(n)) == span_value(src.bits, 0, n),
    decreases n,
{
    if n > 0 {
        lemma_take_is_span(src, (n - 1) as nat);
        src.lemma_take_one_more((n - 1) as nat);
        lemma_skip_head(src, (n - 1) as nat);
        let t = src.take(n);
        assert(t.drop_last() =~= src.take((n - 1) as nat));
        assert(t.last() == src.skip((n - 1) as nat).head());
    }
}

/// The bits that end a stream start with a bit and the opposite bits that
/// were held back, and put the code window into the interval.
pub proof fn lemma_flush_window(st: EncState, bits: Seq<bool>, at: int)
    requires
        normalized(st.low, st.high),
        step_of(st.low, st.high) == Step::Done,
        has_at(bits, at, flush_bits(st)),
        at + flush_bits(st).len() == bits.len(),
    ensures
        held_back(bits, at, st.pending),
        st.low <= window_value(bits, at, st.pending) <= st.high,
{
    let b = st.low >= ONE_FOURTH;
    let f = flush_bits(st);
    let p = st.pending;
    assert(f.len() == p + 2);
    assert(f[0] == b);
    assert(bits[at + 0] == f[0]);
    assert forall|i: int| 1 <= i <= p implies #[trigger] bits[at + i] == !bits[at] by {
        assert(bits[at + i] == f[i]);
        assert(f[i] == repeat_bit(!b, (p + 1) as nat)[i - 1]);
    }
    assert(bits[at + (p + 1)] == f[p as int + 1]);
    assert(f[p as int + 1] == repeat_bit(!b, (p + 1) as nat)[p as int]);
    lemma_span_front(bits, at + p + 1, 30);
    lemma_span_zero(bits, at + p + 2, 30);
    lemma2_to64();
}

/// The output of the doubling steps starts with a bit and the opposite bits
/// that were held back, where what follows it does so for the state after
/// the steps.
pub proof fn lemma_renorm_held_back(st: EncState, bits: Seq<bool>, at: int)
    requires
        interval_ok(st.low, st.high),
        has_at(bits, at, renorm_bits(st)),
        held_back(bits, at + renorm_bits(st).len(), renormalized(st).pending),
    ensures
        held_back(bits, at, st.pending),
    decreases MAX_CODE - (st.high - st.low),
{
    lemma_step(st.low, st.high);
    let p = st.pending;
    match step_of(st.low, st.high) {
        Step::Done => {},
        Step::Middle => {
            let next = EncState {
                low: doubled_low(st.low, Step::Middle),
                high: doubled_high(st.high, Step::Middle),
                pending: st.pending + 1,
            };
            lemma_renorm_held_back(next, bits, at);
            assert forall|i: int| 1 <= i <= p implies #[trigger] bits[at + i] == !bits[at] by {
                assert(1 <= i <= p + 1);
            }
        },
        step => {
            let next = EncState {
                low: doubled_low(st.low, step),
                high: doubled_high(st.high, step),
                pending: 0,
            };
            let b = step == Step::Upper;
            let head = bit_plus_pending(b, p);
            let all = renorm_bits(st);
            assert(all == head + renorm_bits(next));
            assert(head.len() == p + 1);
            lemma_has_at_split(bits, at, head, renorm_bits(next));
            lemma_renorm_held_back(next, bits, at + p + 1);
            assert(bits[at + 0] == head[0]);
            assert forall|i: int| 1 <= i <= p implies #[trigger] bits[at + i] == !bits[at] by {
                assert(bits[at + i] == head[i]);
                assert(head[i] == repeat_bit(!b, p)[i - 1]);
            }
        },
    }
}

/// Where two parts in a row stand in the bits, each of them stands there.
pub proof fn lemma_has_at_split(bits: Seq<bool>, at: int, a: Seq<bool>, b: Seq<bool>)
    requires
        has_at(bits, at, a + b),
    ensures
        has_at(bits, at, a),
        has_at(bits, at + a.len(), b),
{
    assert forall|i: int| 0 <= i < a.len() implies bits[at + i] == #[trigger] a[i] by {
        assert((a + b)[i] == a[i]);
    }
    assert forall|i: int| 0 <= i < b.len() implies bits[at + a.len() + i] == #[trigger] b[i] by {
        assert((a + b)[a.len() + i] == b[i]);
        assert(bits[at + (a.len() + i)] == (a + b)[a.len() + i]);
    }
}

/// The doubling steps keep the code window in the interval: where the
/// window after the steps lies in the interval after the steps, the window
/// before them lies in the interval before them.
pub proof fn lemma_renorm_window(st: EncState, bits: Seq<bool>, at: int)
    requires
        interval_ok(st.low, st.high),
        has_at(bits, at, renorm_bits(st)),
        held_back(bits, at + renorm_bits(st).len(), renormalized(st).pending),
        renormalized(st).low <= window_value(
            bits,
            at + renorm_bits(st).len(),
            renormalized(st).pending,
        ) <= renormalized(st).high,
    ensures
        st.low <= window_value(bits, at, st.pending) <= st.high,
    decreases MAX_CODE - (st.high - st.low),
{
    lemma_step(st.low, st.high);
    lemma2_to64();
    let p = st.pending;
    match step_of(st.low, st.high) {
        Step::Done => {},
        Step::Middle => {
            let next = EncState {
                low: doubled_low(st.low, Step::Middle),
                high: doubled_high(st.high, Step::Middle),
                pending: st.pending + 1,
            };
            lemma_renorm_window(next, bits, at);
            lemma_renorm_held_back(next, bits, at);
            // The bit after the bits held back is the opposite of the first.
            assert(bits[at + (p + 1)] == !bits[at]);
            lemma_span_front(bits, at + p + 1, 30);
            assert(span_value(bits, at + p + 2, 31) == 2 * span_value(bits, at + p + 2, 30)
                + bit_at(bits, at + p + 32));
        },
        step => {
            let next = EncState {
                low: doubled_low(st.low, step),
                high: doubled_high(st.high, step),
                pending: 0,
            };
            let b = step == Step::Upper;
            let head = bit_plus_pending(b, p);
            assert(renorm_bits(st) == head + renorm_bits(next));
            assert(head.len() == p + 1);
            lemma_has_at_split(bits, at, head, renorm_bits(next));
            lemma_renorm_window(next, bits, at + p + 1);
            assert(bits[at + 0] == head[0]);
            lemma_window_is_span(bits, at + p + 1);
        },
    }
}

/// The output for an input starts with a bit and the opposite bits that
/// were held back, and the code window lies in the interval narrowed to the
/// first symbol.
pub proof fn lemma_stream_window(
    m: Seq<int>,
    st: EncState,
    input: Seq<u8>,
    bits: Seq<bool>,
    at: int,
)
    requires
        model_ok(m),
        normalized(st.low, st.high),
        has_at(bits, at, encoded_bits(m, st, input)),
        at + encoded_bits(m, st, input).len() == bits.len(),
    ensures
        held_back(bits, at, st.pending),
        narrowed(m, st, first_symbol(input)).low <= window_value(bits, at, st.pending) <= narrowed(
            m,
            st,
            first_symbol(input),
        ).high,
        st.low <= window_value(bits, at, st.pending) <= st.high,
    decreases input.len(),
{
    let sym = first_symbol(input);
    let nst = narrowed(m, st, sym);
    let st2 = renormalized(nst);
    let head = renorm_bits(nst);
    lemma_symbol_range(m, sym);
    lemma_narrow(st.low, st.high, m[sym], m[sym + 1], m[SYM_CNT as int]);
    lemma_renormalized(nst);
    lemma_renormalized_is_done(nst);
    if input.len() == 0 {
        assert(encoded_bits(m, st, input) == head + flush_bits(st2));
        lemma_has_at_split(bits, at, head, flush_bits(st2));
        lemma_flush_window(st2, bits, at + head.len());
    } else {
        let rest = encoded_bits(updated(m, sym), st2, input.skip(1));
        assert(encoded_bits(m, st, input) == head + rest);
        lemma_has_at_split(bits, at, head, rest);
        lemma_updated_ok(m, sym);
        lemma_stream_window(updated(m, sym), st2, input.skip(1), bits, at + head.len());
    }
    lemma_renorm_held_back(nst, bits, at);
    lemma_renorm_window(nst, bits, at);
}

/// The first symbol that is coded for an input: its first byte, or the end
/// of the stream.
pub open spec fn first_symbol(input: Seq<u8>) -> int {
    if input.len() == 0 {
        EOF as int
    } else {
        input[0] as int
    }
}

/// Every symbol has a range within the total that is not empty.
pub proof fn lemma_symbol_range(m: Seq<int>, sym: int)
    requires
        model_ok(m),
        0 <= sym < SYM_CNT,
    ensures
        0 <= m[sym] < m[sym + 1] <= m[SYM_CNT as int] < crate::arith::model::MAX_FREQ,
{
    lemma_table_grows(m, 0, sym);
    lemma_table_grows(m, sym + 1, SYM_CNT as int);
    assert(m[sym] < m[sym + 1]);
}

/// After the doubling steps no step applies.
pub proof fn lemma_renormalized_is_done(st: EncState)
    requires
        interval_ok(st.low, st.high),
    ensures
        step_of(renormalized(st).low, renormalized(st).high) == Step::Done,
    decreases MAX_CODE - (st.high - st.low),
{
    lemma_step(st.low, st.high);
    match step_of(st.low, st.high) {
        Step::Done => {},
        Step::Middle => {
            lemma_renormalized_is_done(
                EncState {
                    low: doubled_low(st.low, Step::Middle),
                    high: doubled_high(st.high, Step::Middle),
                    pending: st.pending + 1,
                },
            );
        },
        step => {
            lemma_renormalized_is_done(
                EncState {
                    low: doubled_low(st.low, step),
                    high: doubled_high(st.high, step),
                    pending: 0,
                },
            );
        },
    }
}

/// The decoder's state that goes with the encoder's state `st` when the
/// encoder is about to emit bit `at` of `bits`: the same interval, the code
/// window, and the source of the bits behind the window.
pub open spec fn in_step(st: EncState, bits: Seq<bool>, at: int, base: BitSource) -> DecState {
    DecState {
        low: st.low,
        high: st.high,
        value: window_value(bits, at, st.pending),
        src: base.skip((at + st.pending + CODE_BITS) as nat),
    }
}

/// The source holds the bits of the output, and enough zero bits after them
/// for the decoder's window.
pub open spec fn feeds(base: BitSource, bits: Seq<bool>) -> bool {
    agree(base.bits, bits) && base.remaining() >= bits.len() + CODE_BITS
}

/// The decoder's doubling steps follow the encoder's: from states in step
/// they lead to states in step.
pub proof fn lemma_renorm_in_step(st: EncState, bits: Seq<bool>, at: int, base: BitSource)
    requires
        interval_ok(st.low, st.high),
        has_at(bits, at, renorm_bits(st)),
        held_back(bits, at + renorm_bits(st).len(), renormalized(st).pending),
        feeds(base, bits),
    ensures
        dec_renormalized(in_step(st, bits, at, base)) == Some(
            in_step(renormalized(st), bits, at + renorm_bits(st).len(), base),
        ),
    decreases MAX_CODE - (st.high - st.low),
{
    lemma_step(st.low, st.high);
    lemma2_to64();
    let p = st.pending;
    let here = in_step(st, bits, at, base);
    let pos = (at + p + CODE_BITS) as nat;
    lemma_renorm_held_back(st, bits, at);
    base.lemma_take_one_more(pos);
    lemma_skip_head(base, pos);
    assert(bit_or_zero(base.bits, pos as int) == bit_or_zero(bits, pos as int));
    match step_of(st.low, st.high) {
        Step::Done => {},
        Step::Middle => {
            let next = EncState {
                low: doubled_low(st.low, Step::Middle),
                high: doubled_high(st.high, Step::Middle),
                pending: st.pending + 1,
            };
            lemma_renorm_in_step(next, bits, at, base);
            lemma_renorm_held_back(next, bits, at);
            assert(bits[at + (p + 1)] == !bits[at]);
            lemma_span_front(bits, at + p + 1, 30);
            assert(span_value(bits, at + p + 2, 31) == 2 * span_value(bits, at + p + 2, 30)
                + bit_at(bits, at + p + 32));
            assert(dec_doubled(here, Step::Middle) == in_step(next, bits, at, base));
        },
        step => {
            let next = EncState {
                low: doubled_low(st.low, step),
                high: doubled_high(st.high, step),
                pending: 0,
            };
            let b = step == Step::Upper;
            let head = bit_plus_pending(b, p);
            assert(renorm_bits(st) == head + renorm_bits(next));
            assert(head.len() == p + 1);
            lemma_has_at_split(bits, at, head, renorm_bits(next));
            lemma_renorm_in_step(next, bits, at + p + 1, base);
            assert(bits[at + 0] == head[0]);
            lemma_window_is_span(bits, at + p + 1);
            assert(dec_doubled(here, step) == in_step(next, bits, at + p + 1, base));
        },
    }
}

/// From states in step the decoder finds the input that the encoder coded.
pub proof fn lemma_decode_in_step(
    m: Seq<int>,
    st: EncState,
    input: Seq<u8>,
    bits: Seq<bool>,
    at: int,
    base: BitSource,
)
    requires
        model_ok(m),
        normalized(st.low, st.high),
        has_at(bits, at, encoded_bits(m, st, input)),
        at + encoded_bits(m, st, input).len() == bits.len(),
        feeds(base, bits),
    ensures
        decoded_from(m, in_step(st, bits, at, base)) == Ok::<Seq<u8>, Error>(input),
    decreases input.len(),
{
    let sym = first_symbol(input);
    let nst = narrowed(m, st, sym);
    let st2 = renormalized(nst);
    let head = renorm_bits(nst);
    let here = in_step(st, bits, at, base);
    let total = m[SYM_CNT as int];
    lemma_symbol_range(m, sym);
    lemma_narrow(st.low, st.high, m[sym], m[sym + 1], total);
    lemma_renormalized(nst);
    lemma_renormalized_is_done(nst);
    lemma_stream_window(m, st, input, bits, at);
    // The decoder finds the symbol that was coded.
    lemma_interval_to_count(st.low, st.high, here.value, m[sym], m[sym + 1], total);
    lemma_find_symbol(m, scaled_count(st.low, st.high, here.value, total), sym, 0);
    assert(dec_symbol(m, here) == sym);
    assert(dec_narrowed(m, here, sym) == in_step(nst, bits, at, base));
    // Its doubling steps follow those of the encoder.
    if input.len() == 0 {
        assert(encoded_bits(m, st, input) == head + flush_bits(st2));
        lemma_has_at_split(bits, at, head, flush_bits(st2));
        lemma_flush_window(st2, bits, at + head.len());
        lemma_renorm_in_step(nst, bits, at, base);
        assert(dec_ok(here));
        assert(input =~= Seq::<u8>::empty());
    } else {
        let m2 = updated(m, sym);
        let rest = encoded_bits(m2, st2, input.skip(1));
        assert(encoded_bits(m, st, input) == head + rest);
        lemma_has_at_split(bits, at, head, rest);
        lemma_updated_ok(m, sym);
        lemma_stream_window(m2, st2, input.skip(1), bits, at + head.len());
        lemma_renorm_in_step(nst, bits, at, base);
        lemma_decode_in_step(m2, st2, input.skip(1), bits, at + head.len(), base);
        assert(dec_ok(here));
        assert(seq![sym as u8] + input.skip(1) =~= input);
        assert(decoded_from(m, here) == after(
            seq![sym as u8],
            decoded_from(m2, in_step(st2, bits, at + head.len(), base)),
        ));
    }
}

/// Decoding the encoded form of an input gives the input back, whatever
/// model both sides start from.
pub proof fn lemma_round_trip(m: Seq<int>, input: Seq<u8>)
    requires
        model_ok(m),
    ensures
        decoded(m, encoded(m, input)) == Ok::<Seq<u8>, Error>(input),
{
    let bits = encoded_bits(m, initial_state(), input);
    let bytes = encoded(m, input);
    let base = BitSource { bits: bytes_to_bits(bytes), extra: EXTRA_BITS as nat };
    lemma_unpack(bits);
    assert(has_at(bits, 0, bits));
    lemma_decode_in_step(m, initial_state(), input, bits, 0, base);
    // The decoder starts in step with the encoder.
    lemma_take_is_span(base, CODE_BITS as nat);
    lemma_span_agree(base.bits, bits, 0, CODE_BITS as nat);
    lemma_window_is_span(bits, 0);
    assert(dec_initial(bytes) == in_step(initial_state(), bits, 0, base));
}

/// Decompressing what was compressed gives the input back.
pub proof fn lemma_decompress_compress(input: Seq<u8>)
    ensures
        decoded(initial_table(), encoded(initial_table(), input)) == Ok::<Seq<u8>, Error>(input),
{
    assert(model_ok(initial_table())) by {
        let f = initial_table();
        assert forall|i: int| 0 <= i < SYM_CNT implies f[i] < #[trigger] f[i + 1] by {}
    }
    lemma_round_trip(initial_table(), input);
}

/// A stream that was cut short may still decode, since zero bits are read
/// in place of what was cut.  Where it does not decode, it fails with the
/// end-of-stream error.
pub proof fn lemma_cut_stream(m: Seq<int>, input: Seq<u8>, kept: int)
    requires
        model_ok(m),
        0 <= kept < encoded(m, input).len(),
        !(decoded(m, encoded(m, input).take(kept)) is Ok),
    ensures
        decoded(m, encoded(m, input).take(kept)) == Err::<Seq<u8>, Error>(Error::UnexpectedEof),
{
    let cut = encoded(m, input).take(kept);
    lemma_dec_initial(cut);
    lemma_decoding_fails_at_the_end(m, dec_initial(cut));
}

} // verus!
