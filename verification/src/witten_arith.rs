//! Arithmetic coder after Witten, Neal and Cleary.
//!
//! This follows the coder in Ian H. Witten, Radford M. Neal and John G.
//! Cleary: Arithmetic Coding for Data Compression, Communications of the
//! ACM, Vol. 30, Number 6, June 1987, with its adaptive model.  The model
//! keeps the symbols in the order of their frequencies; the bits of the code
//! fill the bytes from the lowest bit up, and the decoder reads bytes of
//! ones after the end of its input.
//!
//! The interval arithmetic is that of the arithmetic coder for bytes; the
//! wire format is not.

use vstd::prelude::*;
use crate::arith::encoder::{
    bit_plus_pending, lemma_renormalized, renorm_bits, renormalized, EncState,
};
use crate::arith::interval::{
    doubled_high, doubled_low, interval_ok, lemma_count_to_interval, lemma_narrow, lemma_step,
    narrowed_high, narrowed_low, normalized, scaled_count, step_of, step_offset, Step, MAX_CODE,
    ONE_FOURTH, ONE_HALF, THREE_FOURTHS,
};
use crate::bits::repeat_bit;
use crate::error::Error;

verus! {

/// The number of bits of a code value.
pub const CODE_VALUE_BITS: usize = 32;

pub type CodeValue = u64;

pub type Symbol = usize;

/// The number of byte values.
pub const NO_OF_CHARS: usize = 256;

/// The symbol that marks the end of a stream.
pub const EOF_SYMBOL: usize = 257;

/// The number of entries of the model after entry zero.
pub const NO_OF_SYMBOLS: usize = 258;

/// The total frequency at which all frequencies are halved.
pub const MAX_FREQUENCY: usize = 16383;

/// The number of bytes of ones that the decoder reads after its input.
pub const GARBAGE_BYTES: usize = 30;

/// The tables of the model: where each byte value stands in the order of
/// the frequencies, which byte value stands at each place, the frequency of
/// each place, and for each place the sum of the frequencies of the places
/// after it.
pub struct ModelView {
    pub char_to_index: Seq<usize>,
    pub index_to_char: Seq<usize>,
    pub cum_freq: Seq<usize>,
    pub freq: Seq<usize>,
}

/// The tables are in order.
pub open spec fn model_ok(v: ModelView) -> bool {
    &&& v.char_to_index.len() == NO_OF_CHARS
    &&& v.index_to_char.len() == NO_OF_SYMBOLS + 1
    &&& v.cum_freq.len() == NO_OF_SYMBOLS + 1
    &&& v.freq.len() == NO_OF_SYMBOLS + 1
    &&& forall|c: int| 0 <= c < NO_OF_CHARS ==> 1 <= #[trigger] v.char_to_index[c] <= NO_OF_SYMBOLS
    &&& forall|i: int| 0 <= i <= NO_OF_SYMBOLS ==> #[trigger] v.index_to_char[i] < NO_OF_CHARS
    &&& v.freq[0] == 0
    &&& forall|i: int| 1 <= i <= NO_OF_SYMBOLS ==> #[trigger] v.freq[i] >= 1
    &&& v.cum_freq[NO_OF_SYMBOLS as int] == 0
    &&& forall|i: int|
        1 <= i <= NO_OF_SYMBOLS ==> v.cum_freq[i - 1] == v.cum_freq[i] + #[trigger] v.freq[i]
    &&& v.cum_freq[0] <= MAX_FREQUENCY
}

/// The tables of a fresh model.
pub open spec fn fresh_model() -> ModelView {
    ModelView {
        char_to_index: Seq::new(NO_OF_CHARS as nat, |i: int| (i + 1) as usize),
        index_to_char: Seq::new(
            (NO_OF_SYMBOLS + 1) as nat,
            |i: int| if 1 <= i <= NO_OF_CHARS { (i - 1) as usize } else { 0usize },
        ),
        cum_freq: Seq::new((NO_OF_SYMBOLS + 1) as nat, |i: int| (NO_OF_SYMBOLS - i) as usize),
        freq: Seq::new((NO_OF_SYMBOLS + 1) as nat, |i: int| if i == 0 { 0usize } else { 1usize }),
    }
}

/// The frequencies halved, rounded up.
pub open spec fn halved_freq(freq: Seq<usize>) -> Seq<usize> {
    Seq::new(freq.len(), |i: int| ((freq[i] + 1) / 2) as usize)
}

/// The sum of the frequencies of the places after `i`.
pub open spec fn suffix_sum(freq: Seq<usize>, i: int) -> int
    decreases NO_OF_SYMBOLS - i,
{
    if i >= NO_OF_SYMBOLS {
        0
    } else {
        suffix_sum(freq, i + 1) + freq[i + 1]
    }
}

/// The tables with all frequencies halved.
pub open spec fn halved(v: ModelView) -> ModelView {
    ModelView {
        freq: halved_freq(v.freq),
        cum_freq: Seq::new(
            (NO_OF_SYMBOLS + 1) as nat,
            |i: int| suffix_sum(halved_freq(v.freq), i) as usize,
        ),
        ..v
    }
}

/// The first place of the run of equal frequencies that ends at place `i`.
pub open spec fn run_start(freq: Seq<usize>, i: int) -> int
    decreases i,
{
    if i > 0 && freq[i] == freq[i - 1] {
        run_start(freq, i - 1)
    } else {
        i
    }
}

/// The tables after one more occurrence of the symbol at place `symbol` was
/// counted: the symbol moves to the first place among those of its
/// frequency, and its frequency there grows by one.
pub open spec fn counted(v: ModelView, symbol: int) -> ModelView {
    ModelView {
        index_to_char: if run_start(v.freq, symbol) < symbol {
            v.index_to_char.update(run_start(v.freq, symbol), v.index_to_char[symbol]).update(
                symbol,
                v.index_to_char[run_start(v.freq, symbol)],
            )
        } else {
            v.index_to_char
        },
        char_to_index: if run_start(v.freq, symbol) < symbol {
            v.char_to_index.update(
                v.index_to_char[run_start(v.freq, symbol)] as int,
                symbol as usize,
            ).update(v.index_to_char[symbol] as int, run_start(v.freq, symbol) as usize)
        } else {
            v.char_to_index
        },
        freq: v.freq.update(
            run_start(v.freq, symbol),
            (v.freq[run_start(v.freq, symbol)] + 1) as usize,
        ),
        cum_freq: Seq::new(
            v.cum_freq.len(),
            |j: int|
                if j < run_start(v.freq, symbol) {
                    (v.cum_freq[j] + 1) as usize
                } else {
                    v.cum_freq[j]
                },
        ),
    }
}

/// The tables after an update for the symbol at place `symbol`: the
/// frequencies are halved where their total has reached the limit, and the
/// occurrence is counted.
pub open spec fn updated(v: ModelView, symbol: int) -> ModelView {
    if v.cum_freq[0] == MAX_FREQUENCY {
        counted(halved(v), symbol)
    } else {
        counted(v, symbol)
    }
}

/// The sums over the halved frequencies are at most those over the
/// frequencies, and at most about half of them.
pub proof fn lemma_suffix_halved(freq: Seq<usize>, i: int)
    requires
        freq.len() == NO_OF_SYMBOLS + 1,
        0 <= i <= NO_OF_SYMBOLS,
        forall|j: int| 1 <= j <= NO_OF_SYMBOLS ==> 1 <= #[trigger] freq[j] <= MAX_FREQUENCY,
    ensures
        0 <= suffix_sum(halved_freq(freq), i) <= suffix_sum(freq, i),
        2 * suffix_sum(halved_freq(freq), i) <= suffix_sum(freq, i) + (NO_OF_SYMBOLS - i),
        suffix_sum(freq, i) >= NO_OF_SYMBOLS - i,
        i < NO_OF_SYMBOLS ==> suffix_sum(halved_freq(freq), i) == suffix_sum(
            halved_freq(freq),
            i + 1,
        ) + halved_freq(freq)[i + 1],
    decreases NO_OF_SYMBOLS - i,
{
    if i < NO_OF_SYMBOLS {
        lemma_suffix_halved(freq, i + 1);
        assert(1 <= freq[i + 1] <= MAX_FREQUENCY);
        assert(halved_freq(freq)[i + 1] == (freq[i + 1] + 1) / 2);
    }
}

/// In tables in order the sum stored for a place is the sum of the
/// frequencies after it; it is at most the total, and leaves room for the
/// places before it.
pub proof fn lemma_cum(v: ModelView, i: int)
    requires
        model_ok(v),
        0 <= i <= NO_OF_SYMBOLS,
    ensures
        v.cum_freq[i] == suffix_sum(v.freq, i),
        v.cum_freq[i] + i <= v.cum_freq[0],
        v.cum_freq[i] >= NO_OF_SYMBOLS - i,
        i >= 1 ==> v.freq[i] <= v.cum_freq[0],
    decreases NO_OF_SYMBOLS - i,
{
    lemma_cum_down(v, i);
    if i < NO_OF_SYMBOLS {
        lemma_cum(v, i + 1);
        assert(v.cum_freq[i + 1 - 1] == v.cum_freq[i + 1] + v.freq[i + 1]);
    }
    if i >= 1 {
        assert(v.cum_freq[i - 1] == v.cum_freq[i] + v.freq[i]);
        lemma_cum_down(v, i - 1);
    }
}

/// The sums stored grow towards place zero, by at least one per place.
pub proof fn lemma_cum_down(v: ModelView, i: int)
    requires
        model_ok(v),
        0 <= i <= NO_OF_SYMBOLS,
    ensures
        v.cum_freq[i] + i <= v.cum_freq[0],
    decreases i,
{
    if i > 0 {
        lemma_cum_down(v, i - 1);
        assert(v.cum_freq[i - 1] == v.cum_freq[i] + v.freq[i]);
        assert(v.freq[i] >= 1);
    }
}

/// Halving keeps the tables in order and brings the total below the limit.
pub proof fn lemma_halved_ok(v: ModelView)
    requires
        model_ok(v),
    ensures
        model_ok(halved(v)),
        halved(v).cum_freq[0] < MAX_FREQUENCY,
{
    let h = halved(v);
    let hf = halved_freq(v.freq);
    assert forall|j: int| 1 <= j <= NO_OF_SYMBOLS implies 1 <= #[trigger] v.freq[j]
        <= MAX_FREQUENCY by {
        lemma_cum(v, j);
    }
    assert forall|i: int| 1 <= i <= NO_OF_SYMBOLS implies h.cum_freq[i - 1] == h.cum_freq[i]
        + #[trigger] h.freq[i] by {
        lemma_suffix_halved(v.freq, i - 1);
        lemma_suffix_halved(v.freq, i);
        lemma_cum(v, i - 1);
        lemma_cum(v, i);
    }
    assert forall|i: int| 1 <= i <= NO_OF_SYMBOLS implies #[trigger] h.freq[i] >= 1 by {
        assert(v.freq[i] >= 1);
    }
    lemma_suffix_halved(v.freq, 0);
    lemma_suffix_halved(v.freq, NO_OF_SYMBOLS as int);
    lemma_cum(v, 0);
}

/// The sums over the halved frequencies stay within the limit.
pub proof fn lemma_halved_sums(v: ModelView)
    requires
        model_ok(v),
    ensures
        forall|k: int|
            0 <= k <= NO_OF_SYMBOLS ==> 0 <= #[trigger] suffix_sum(halved_freq(v.freq), k)
                <= MAX_FREQUENCY,
{
    assert forall|j: int| 1 <= j <= NO_OF_SYMBOLS implies 1 <= #[trigger] v.freq[j]
        <= MAX_FREQUENCY by {
        lemma_cum(v, j);
    }
    assert forall|k: int| 0 <= k <= NO_OF_SYMBOLS implies 0 <= #[trigger] suffix_sum(
        halved_freq(v.freq),
        k,
    ) <= MAX_FREQUENCY by {
        lemma_suffix_halved(v.freq, k);
        lemma_cum(v, k);
        lemma_cum(v, 0);
    }
}

/// The run of equal frequencies that ends at a place from one on starts at
/// a place from one on.
pub proof fn lemma_run_start(v: ModelView, i: int)
    requires
        model_ok(v),
        1 <= i <= NO_OF_SYMBOLS,
    ensures
        1 <= run_start(v.freq, i) <= i,
    decreases i,
{
    assert(v.freq[i] >= 1);
    if i > 1 && v.freq[i] == v.freq[i - 1] {
        lemma_run_start(v, i - 1);
    }
}

/// Counting an occurrence keeps the tables in order, where the total is
/// below the limit.
pub proof fn lemma_counted_ok(v: ModelView, symbol: int)
    requires
        model_ok(v),
        v.cum_freq[0] < MAX_FREQUENCY,
        1 <= symbol <= NO_OF_SYMBOLS,
    ensures
        model_ok(counted(v, symbol)),
{
    let w = counted(v, symbol);
    let i = run_start(v.freq, symbol);
    lemma_run_start(v, symbol);
    lemma_cum(v, i);
    assert(v.index_to_char[i] < NO_OF_CHARS);
    assert(v.index_to_char[symbol] < NO_OF_CHARS);
    assert forall|c: int| 0 <= c < NO_OF_CHARS implies 1 <= #[trigger] w.char_to_index[c]
        <= NO_OF_SYMBOLS by {
        assert(1 <= v.char_to_index[c] <= NO_OF_SYMBOLS);
    }
    assert forall|j: int| 0 <= j <= NO_OF_SYMBOLS implies #[trigger] w.index_to_char[j]
        < NO_OF_CHARS by {
        assert(v.index_to_char[j] < NO_OF_CHARS);
    }
    assert forall|j: int| 1 <= j <= NO_OF_SYMBOLS implies #[trigger] w.freq[j] >= 1 by {
        assert(v.freq[j] >= 1);
    }
    assert forall|j: int| 1 <= j <= NO_OF_SYMBOLS implies w.cum_freq[j - 1] == w.cum_freq[j]
        + #[trigger] w.freq[j] by {
        assert(v.cum_freq[j - 1] == v.cum_freq[j] + v.freq[j]);
        lemma_cum_down(v, j);
        lemma_cum_down(v, j - 1);
    }
    lemma_cum(v, i);
}

/// An update keeps the tables in order.
pub proof fn lemma_updated_ok(v: ModelView, symbol: int)
    requires
        model_ok(v),
        1 <= symbol <= NO_OF_SYMBOLS,
    ensures
        model_ok(updated(v, symbol)),
{
    if v.cum_freq[0] == MAX_FREQUENCY {
        lemma_halved_ok(v);
        lemma_counted_ok(halved(v), symbol);
    } else {
        lemma_counted_ok(v, symbol);
    }
}

/// The adaptive model.
pub struct Model {
    char_to_index: Vec<usize>,
    index_to_char: Vec<usize>,
    cum_freq: Vec<usize>,
    freq: Vec<usize>,
}

impl Model {
    /// The tables of the model.
    pub closed spec fn view(&self) -> ModelView {
        ModelView {
            char_to_index: self.char_to_index@,
            index_to_char: self.index_to_char@,
            cum_freq: self.cum_freq@,
            freq: self.freq@,
        }
    }

    /// The model is in order.
    pub open spec fn wf(&self) -> bool {
        model_ok(self@)
    }

    /// Create a model in which every symbol has been seen once.
    pub fn new() -> (m: Model)
        ensures
            m.wf(),
            m@ == fresh_model(),
    {
        let mut char_to_index: Vec<usize> = Vec::new();
        let mut i: usize = 0;
        while i < NO_OF_CHARS
            invariant
                i <= NO_OF_CHARS,
                char_to_index@.len() == i,
                forall|j: int| 0 <= j < i ==> char_to_index@[j] == j + 1,
            decreases NO_OF_CHARS - i,
        {
            char_to_index.push(i + 1);
            i += 1;
        }
        let mut index_to_char: Vec<usize> = Vec::new();
        let mut cum_freq: Vec<usize> = Vec::new();
        let mut freq: Vec<usize> = Vec::new();
        let mut i: usize = 0;
        while i < NO_OF_SYMBOLS + 1
            invariant
                i <= NO_OF_SYMBOLS + 1,
                index_to_char@.len() == i,
                cum_freq@.len() == i,
                freq@.len() == i,
                forall|j: int|
                    0 <= j < i ==> index_to_char@[j] == if 1 <= j <= NO_OF_CHARS {
                        (j - 1) as usize
                    } else {
                        0usize
                    },
                forall|j: int| 0 <= j < i ==> cum_freq@[j] == NO_OF_SYMBOLS - j,
                forall|j: int| 0 <= j < i ==> freq@[j] == if j == 0 { 0usize } else { 1usize },
            decreases NO_OF_SYMBOLS + 1 - i,
        {
            index_to_char.push(
                if 1 <= i && i <= NO_OF_CHARS {
                    i - 1
                } else {
                    0
                },
            );
            cum_freq.push(NO_OF_SYMBOLS - i);
            freq.push(
                if i == 0 {
                    0
                } else {
                    1
                },
            );
            i += 1;
        }
        let m = Model { char_to_index, index_to_char, cum_freq, freq };
        proof {
            assert(m@.char_to_index =~= fresh_model().char_to_index);
            assert(m@.index_to_char =~= fresh_model().index_to_char);
            assert(m@.cum_freq =~= fresh_model().cum_freq);
            assert(m@.freq =~= fresh_model().freq);
        }
        m
    }

    /// Halve all frequencies, rounding up, and sum them up anew.
    fn halve(&mut self)
        requires
            old(self).wf(),
        ensures
            final(self)@ == halved(old(self)@),
    {
        let ghost v = self@;
        let ghost hf = halved_freq(v.freq);
        proof {
            lemma_halved_sums(v);
        }
        let mut cum: usize = 0;
        let mut i: usize = NO_OF_SYMBOLS;
        while i > 0
            invariant
                i <= NO_OF_SYMBOLS,
                hf == halved_freq(v.freq),
                v.freq.len() == NO_OF_SYMBOLS + 1,
                forall|k: int| 0 <= k <= NO_OF_SYMBOLS ==> 0 <= #[trigger] suffix_sum(hf, k)
                    <= MAX_FREQUENCY,
                self.char_to_index == old(self).char_to_index,
                self.index_to_char == old(self).index_to_char,
                self.freq@.len() == NO_OF_SYMBOLS + 1,
                self.cum_freq@.len() == NO_OF_SYMBOLS + 1,
                cum == suffix_sum(hf, i as int),
                forall|j: int| 0 <= j <= i ==> self.freq@[j] == v.freq[j],
                forall|j: int| i < j <= NO_OF_SYMBOLS ==> self.freq@[j] == hf[j],
                forall|j: int|
                    i < j <= NO_OF_SYMBOLS ==> self.cum_freq@[j] == suffix_sum(hf, j),
            decreases i,
        {
            proof {
                assert(suffix_sum(hf, i - 1) == suffix_sum(hf, i as int) + hf[i as int]);
                assert(0 <= suffix_sum(hf, i - 1) <= MAX_FREQUENCY);
                assert(hf[i as int] == (v.freq[i as int] + 1) / 2);
            }
            let f = (self.freq[i] + 1) / 2;
            self.freq.set(i, f);
            self.cum_freq.set(i, cum);
            cum += f;
            i -= 1;
        }
        let f0 = (self.freq[0] + 1) / 2;
        self.freq.set(0, f0);
        self.cum_freq.set(0, cum);
        proof {
            assert(self@.freq =~= halved(v).freq);
            assert(self@.cum_freq =~= halved(v).cum_freq);
        }
    }

    /// Find the first place of the run of equal frequencies that ends at
    /// place `symbol`.
    fn first_of_run(&self, symbol: Symbol) -> (i: usize)
        requires
            self.freq@.len() == NO_OF_SYMBOLS + 1,
            symbol <= NO_OF_SYMBOLS,
        ensures
            i == run_start(self@.freq, symbol as int),
            i <= symbol,
    {
        let mut i: usize = symbol;
        while i > 0 && self.freq[i] == self.freq[i - 1]
            invariant
                i <= symbol <= NO_OF_SYMBOLS,
                self.freq@.len() == NO_OF_SYMBOLS + 1,
                run_start(self.freq@, i as int) == run_start(self.freq@, symbol as int),
            decreases i,
        {
            i -= 1;
        }
        i
    }

    /// Add one to the sums of the places before `first`.
    fn raise_sums(&mut self, first: usize)
        requires
            old(self).cum_freq@.len() == NO_OF_SYMBOLS + 1,
            first <= NO_OF_SYMBOLS,
            forall|j: int| 0 <= j <= NO_OF_SYMBOLS ==> #[trigger] old(self).cum_freq@[j]
                <= MAX_FREQUENCY,
        ensures
            final(self).char_to_index == old(self).char_to_index,
            final(self).index_to_char == old(self).index_to_char,
            final(self).freq == old(self).freq,
            final(self).cum_freq@ == Seq::new(
                old(self).cum_freq@.len(),
                |j: int|
                    if j < first {
                        (old(self).cum_freq@[j] + 1) as usize
                    } else {
                        old(self).cum_freq@[j]
                    },
            ),
    {
        let mut i: usize = first;
        while i > 0
            invariant
                i <= first <= NO_OF_SYMBOLS,
                self.char_to_index == old(self).char_to_index,
                self.index_to_char == old(self).index_to_char,
                self.freq == old(self).freq,
                self.cum_freq@.len() == NO_OF_SYMBOLS + 1,
                forall|j: int| 0 <= j <= NO_OF_SYMBOLS ==> #[trigger] old(self).cum_freq@[j]
                    <= MAX_FREQUENCY,
                forall|j: int| 0 <= j < i ==> self.cum_freq@[j] == old(self).cum_freq@[j],
                forall|j: int|
                    i <= j < first ==> self.cum_freq@[j] == old(self).cum_freq@[j] + 1,
                forall|j: int|
                    first <= j <= NO_OF_SYMBOLS ==> self.cum_freq@[j] == old(self).cum_freq@[j],
            decreases i,
        {
            i -= 1;
            assert(old(self).cum_freq@[i as int] <= MAX_FREQUENCY);
            let c = self.cum_freq[i] + 1;
            self.cum_freq.set(i, c);
        }
        proof {
            assert(self.cum_freq@ =~= Seq::new(
                old(self).cum_freq@.len(),
                |j: int|
                    if j < first {
                        (old(self).cum_freq@[j] + 1) as usize
                    } else {
                        old(self).cum_freq@[j]
                    },
            ));
        }
    }

    /// Count one more occurrence of the symbol at place `symbol`.
    fn count(&mut self, symbol: Symbol)
        requires
            old(self).wf(),
            old(self)@.cum_freq[0] < MAX_FREQUENCY,
            1 <= symbol <= NO_OF_SYMBOLS,
        ensures
            final(self).wf(),
            final(self)@ == counted(old(self)@, symbol as int),
    {
        let ghost v = self@;
        proof {
            lemma_run_start(v, symbol as int);
            lemma_counted_ok(v, symbol as int);
            lemma_cum(v, run_start(v.freq, symbol as int));
            assert forall|j: int| 0 <= j <= NO_OF_SYMBOLS implies #[trigger] v.cum_freq[j]
                <= MAX_FREQUENCY by {
                lemma_cum_down(v, j);
            }
        }
        let i = self.first_of_run(symbol);
        if i < symbol {
            let ch_i = self.index_to_char[i];
            let ch_symbol = self.index_to_char[symbol];
            assert(v.index_to_char[i as int] < NO_OF_CHARS);
            assert(v.index_to_char[symbol as int] < NO_OF_CHARS);
            self.index_to_char.set(i, ch_symbol);
            self.index_to_char.set(symbol, ch_i);
            self.char_to_index.set(ch_i, symbol);
            self.char_to_index.set(ch_symbol, i);
        }
        let f = self.freq[i] + 1;
        self.freq.set(i, f);
        self.raise_sums(i);
    }

    /// Update the model for one more occurrence of the symbol at place
    /// `symbol`.
    pub fn update(&mut self, symbol: Symbol)
        requires
            old(self).wf(),
            1 <= symbol <= NO_OF_SYMBOLS,
        ensures
            final(self).wf(),
            final(self)@ == updated(old(self)@, symbol as int),
    {
        if self.cum_freq[0] == MAX_FREQUENCY {
            proof {
                lemma_halved_ok(self@);
            }
            self.halve();
        }
        self.count(symbol);
    }
}

/// The state of the output of an encoder: the bytes written, the byte that
/// is being filled, and the number of bits that it still takes.
pub struct OutView {
    pub bytes: Seq<u8>,
    pub buffer: u8,
    pub bits_to_go: usize,
}

/// The output can take a bit.
pub open spec fn out_ok(o: OutView) -> bool {
    1 <= o.bits_to_go <= 8
}

/// The state after `bit` went to the output.  The bits of a byte fill it
/// from the lowest bit up.
pub open spec fn put_bit(o: OutView, bit: bool) -> OutView {
    if o.bits_to_go == 1 {
        OutView {
            bytes: o.bytes.push(shifted_in(o.buffer, bit)),
            buffer: shifted_in(o.buffer, bit),
            bits_to_go: 8,
        }
    } else {
        OutView {
            bytes: o.bytes,
            buffer: shifted_in(o.buffer, bit),
            bits_to_go: (o.bits_to_go - 1) as usize,
        }
    }
}

/// The byte that is being filled after `bit` entered it at the top.
pub open spec fn shifted_in(buffer: u8, bit: bool) -> u8 {
    if bit {
        (buffer >> 1) | 0x80
    } else {
        buffer >> 1
    }
}

/// The state after the bits of `bits` went to the output.
pub open spec fn put_bits(o: OutView, bits: Seq<bool>) -> OutView
    decreases bits.len(),
{
    if bits.len() == 0 {
        o
    } else {
        put_bit(put_bits(o, bits.drop_last()), bits.last())
    }
}

/// The state after the byte that is being filled was written, where it
/// holds a bit: its bits are moved down to the lowest.
pub open spec fn out_finished(o: OutView) -> OutView {
    if o.bits_to_go < 8 {
        OutView { bytes: o.bytes.push(o.buffer >> (o.bits_to_go as u8)), ..o }
    } else {
        o
    }
}

/// Putting bits keeps the output able to take a bit.
pub proof fn lemma_put_bits_ok(o: OutView, bits: Seq<bool>)
    requires
        out_ok(o),
    ensures
        out_ok(put_bits(o, bits)),
    decreases bits.len(),
{
    if bits.len() > 0 {
        lemma_put_bits_ok(o, bits.drop_last());
    }
}

/// Putting two runs of bits one after the other is putting them in a row.
pub proof fn lemma_put_bits_concat(o: OutView, a: Seq<bool>, b: Seq<bool>)
    ensures
        put_bits(o, a + b) == put_bits(put_bits(o, a), b),
    decreases b.len(),
{
    if b.len() == 0 {
        assert(a + b =~= a);
    } else {
        lemma_put_bits_concat(o, a, b.drop_last());
        assert((a + b).drop_last() =~= a + b.drop_last());
        assert((a + b).last() == b.last());
    }
}

/// The state of an encoder: its output, its model, and its interval with
/// the number of bits held back.
pub struct EncoderView {
    pub out: OutView,
    pub model: ModelView,
    pub st: EncState,
}

/// The encoder can code a symbol.
pub open spec fn encoder_ok(v: EncoderView) -> bool {
    out_ok(v.out) && model_ok(v.model) && normalized(v.st.low, v.st.high)
}

/// The interval narrowed to the range of the symbol at place `symbol`.
pub open spec fn narrowed(model: ModelView, st: EncState, symbol: int) -> EncState {
    EncState {
        low: narrowed_low(
            st.low,
            st.high,
            model.cum_freq[symbol] as int,
            model.cum_freq[0] as int,
        ),
        high: narrowed_high(
            st.low,
            st.high,
            model.cum_freq[symbol - 1] as int,
            model.cum_freq[0] as int,
        ),
        pending: st.pending,
    }
}

/// The state after the symbol at place `symbol` was coded; the model is not
/// updated.
pub open spec fn symbol_encoded(v: EncoderView, symbol: int) -> EncoderView {
    EncoderView {
        out: put_bits(v.out, renorm_bits(narrowed(v.model, v.st, symbol))),
        model: v.model,
        st: renormalized(narrowed(v.model, v.st, symbol)),
    }
}

/// The state after the byte `b` was coded and counted.
pub open spec fn byte_encoded(v: EncoderView, b: u8) -> EncoderView {
    EncoderView {
        model: updated(v.model, v.model.char_to_index[b as int] as int),
        ..symbol_encoded(v, v.model.char_to_index[b as int] as int)
    }
}

/// The state after the bytes of `data` were coded.
pub open spec fn written(v: EncoderView, data: Seq<u8>) -> EncoderView
    decreases data.len(),
{
    if data.len() == 0 {
        v
    } else {
        byte_encoded(written(v, data.drop_last()), data.last())
    }
}

/// The state after the stream was ended: the end is coded, the quarter in
/// which the lower end of the interval lies is settled, and the last byte
/// written.
pub open spec fn ended(v: EncoderView) -> EncoderView {
    EncoderView {
        out: out_finished(
            put_bits(
                symbol_encoded(v, EOF_SYMBOL as int).out,
                bit_plus_pending(
                    symbol_encoded(v, EOF_SYMBOL as int).st.low >= ONE_FOURTH,
                    symbol_encoded(v, EOF_SYMBOL as int).st.pending + 1,
                ),
            ),
        ),
        model: v.model,
        st: EncState { pending: 0, ..symbol_encoded(v, EOF_SYMBOL as int).st },
    }
}

/// The state of an encoder that starts to append to `output`.
pub open spec fn encoder_start(output: Seq<u8>) -> EncoderView {
    EncoderView {
        out: OutView { bytes: output, buffer: 0, bits_to_go: 8 },
        model: fresh_model(),
        st: EncState { low: 0, high: MAX_CODE as int, pending: 0 },
    }
}

/// Coding a symbol leaves the encoder able to code, and holds back a
/// bounded number of bits more.
pub proof fn lemma_symbol_encoded(v: EncoderView, symbol: int)
    requires
        encoder_ok(v),
        1 <= symbol <= NO_OF_SYMBOLS,
    ensures
        encoder_ok(symbol_encoded(v, symbol)),
        interval_ok(narrowed(v.model, v.st, symbol).low, narrowed(v.model, v.st, symbol).high),
        symbol_encoded(v, symbol).st.pending <= v.st.pending + MAX_CODE,
        v.model.cum_freq[symbol] < v.model.cum_freq[symbol - 1] <= v.model.cum_freq[0],
{
    let m = v.model;
    lemma_cum(m, symbol);
    lemma_cum(m, symbol - 1);
    lemma_cum_down(m, symbol - 1);
    assert(m.cum_freq[symbol - 1] == m.cum_freq[symbol] + m.freq[symbol]);
    assert(m.freq[symbol] >= 1);
    lemma_narrow(
        v.st.low,
        v.st.high,
        m.cum_freq[symbol] as int,
        m.cum_freq[symbol - 1] as int,
        m.cum_freq[0] as int,
    );
    lemma_renormalized(narrowed(m, v.st, symbol));
    lemma_put_bits_ok(v.out, renorm_bits(narrowed(m, v.st, symbol)));
}

/// Coding bytes leaves the encoder able to code, and holds back a bounded
/// number of bits more for each byte.
pub proof fn lemma_written(v: EncoderView, data: Seq<u8>)
    requires
        encoder_ok(v),
    ensures
        encoder_ok(written(v, data)),
        written(v, data).st.pending <= v.st.pending + data.len() * MAX_CODE,
    decreases data.len(),
{
    if data.len() > 0 {
        lemma_written(v, data.drop_last());
        let w = written(v, data.drop_last());
        let symbol = w.model.char_to_index[data.last() as int] as int;
        assert(1 <= w.model.char_to_index[data.last() as int] <= NO_OF_SYMBOLS);
        lemma_symbol_encoded(w, symbol);
        lemma_updated_ok(w.model, symbol);
        assert(data.len() * MAX_CODE == (data.len() - 1) * MAX_CODE + MAX_CODE)
            by (nonlinear_arith);
    }
}

/// An arithmetic encoder.
pub struct Encoder {
    inner: Vec<u8>,
    model: Model,
    low: CodeValue,
    high: CodeValue,
    bits_to_follow: u128,
    buffer: u8,
    bits_to_go: usize,
}

impl Encoder {
    /// The state of the encoder.
    pub closed spec fn view(&self) -> EncoderView {
        EncoderView {
            out: OutView {
                bytes: self.inner@,
                buffer: self.buffer,
                bits_to_go: self.bits_to_go,
            },
            model: self.model@,
            st: EncState {
                low: self.low as int,
                high: self.high as int,
                pending: self.bits_to_follow as nat,
            },
        }
    }

    /// The encoder can code a symbol.
    pub open spec fn wf(&self) -> bool {
        encoder_ok(self@)
    }

    /// Create an encoder that appends to `output`.
    pub fn new(output: Vec<u8>) -> (enc: Encoder)
        ensures
            enc.wf(),
            enc@ == encoder_start(output@),
    {
        Encoder {
            inner: output,
            model: Model::new(),
            low: 0,
            high: MAX_CODE,
            bits_to_follow: 0,
            buffer: 0,
            bits_to_go: 8,
        }
    }

    /// Code the symbol at place `symbol` of the model.
    pub fn encode_symbol(&mut self, symbol: Symbol) -> (r: Result<(), Error>)
        requires
            old(self).wf(),
            1 <= symbol <= NO_OF_SYMBOLS,
            old(self)@.st.pending + MAX_CODE <= u128::MAX,
        ensures
            r is Ok,
            final(self).wf(),
            final(self)@ == symbol_encoded(old(self)@, symbol as int),
            final(self)@.st.pending <= old(self)@.st.pending + MAX_CODE,
    {
        let ghost v = self@;
        let ghost start = narrowed(v.model, v.st, symbol as int);
        proof {
            lemma_symbol_encoded(v, symbol as int);
            lemma_renormalized(start);
        }
        let range: CodeValue = (self.high - self.low) + 1;
        let total = self.model.cum_freq[0] as CodeValue;

        let hi_freq = self.model.cum_freq[symbol - 1] as CodeValue;
        let lo_freq = self.model.cum_freq[symbol] as CodeValue;
        proof {
            assert(range * hi_freq <= 0x1_0000_0000 * 0x3fff) by (nonlinear_arith)
                requires
                    0 <= range <= 0x1_0000_0000,
                    0 <= hi_freq <= 0x3fff,
            ;
            assert(range * lo_freq <= 0x1_0000_0000 * 0x3fff) by (nonlinear_arith)
                requires
                    0 <= range <= 0x1_0000_0000,
                    0 <= lo_freq <= 0x3fff,
            ;
        }

        self.high = self.low + (range * hi_freq) / total - 1;
        self.low = self.low + (range * lo_freq) / total;
        proof {
            assert(self@.out =~= put_bits(v.out, Seq::<bool>::empty()));
            assert(Seq::<bool>::empty() + renorm_bits(start) =~= renorm_bits(start));
        }
        let ghost mut done: Seq<bool> = Seq::empty();

        loop
            invariant
                self.model == old(self).model,
                v == old(self)@,
                model_ok(v.model),
                out_ok(self@.out),
                start == narrowed(v.model, v.st, symbol as int),
                interval_ok(start.low, start.high),
                interval_ok(self.low as int, self.high as int),
                self.bits_to_follow + (MAX_CODE - (self.high - self.low)) <= start.pending + (
                MAX_CODE - (start.high - start.low)),
                start.pending + MAX_CODE <= u128::MAX,
                self@.out == put_bits(v.out, done),
                renormalized(self@.st) == renormalized(start),
                done + renorm_bits(self@.st) == renorm_bits(start),
            ensures
                self.model == old(self).model,
                self@.st == renormalized(start),
                self@.out == put_bits(v.out, renorm_bits(start)),
                self.bits_to_follow <= start.pending + MAX_CODE,
            decreases MAX_CODE - (self.high - self.low),
        {
            let ghost here = self@.st;
            let ghost before = done;
            proof {
                lemma_step(self.low as int, self.high as int);
            }
            if self.high < ONE_HALF {
                let _ = self.bit_plus_follow(0);
                proof {
                    let emitted = bit_plus_pending(false, here.pending);
                    done = done + emitted;
                    lemma_put_bits_concat(v.out, before, emitted);
                    let next = EncState {
                        low: doubled_low(here.low, Step::Lower),
                        high: doubled_high(here.high, Step::Lower),
                        pending: 0,
                    };
                    assert(renorm_bits(here) == emitted + renorm_bits(next));
                    assert(done + renorm_bits(next) =~= before + renorm_bits(here));
                }
            } else if self.low >= ONE_HALF {
                let _ = self.bit_plus_follow(1);
                proof {
                    let emitted = bit_plus_pending(true, here.pending);
                    done = done + emitted;
                    lemma_put_bits_concat(v.out, before, emitted);
                    let next = EncState {
                        low: doubled_low(here.low, Step::Upper),
                        high: doubled_high(here.high, Step::Upper),
                        pending: 0,
                    };
                    assert(renorm_bits(here) == emitted + renorm_bits(next));
                    assert(done + renorm_bits(next) =~= before + renorm_bits(here));
                }
                self.low -= ONE_HALF;
                self.high -= ONE_HALF;
            } else if self.low >= ONE_FOURTH && self.high < THREE_FOURTHS {
                self.bits_to_follow += 1;
                self.low -= ONE_FOURTH;
                self.high -= ONE_FOURTH;
            } else {
                proof {
                    assert(renorm_bits(here) =~= Seq::<bool>::empty());
                    assert(done + renorm_bits(here) =~= done);
                }
                break ;
            }
            self.low = 2 * self.low;
            self.high = 2 * self.high + 1;
        }

        Ok(())
    }

    /// Settle the quarter in which the lower end of the interval lies, so
    /// that the decoder can tell the last symbol.
    fn done_encoding(&mut self) -> (r: Result<(), Error>)
        requires
            out_ok(old(self)@.out),
            old(self)@.st.pending < u128::MAX,
        ensures
            r is Ok,
            out_ok(final(self)@.out),
            final(self).model == old(self).model,
            final(self)@.st == (EncState { pending: 0, ..old(self)@.st }),
            final(self)@.out == put_bits(
                old(self)@.out,
                bit_plus_pending(old(self)@.st.low >= ONE_FOURTH, old(self)@.st.pending + 1),
            ),
    {
        self.bits_to_follow += 1;
        if self.low < ONE_FOURTH {
            self.bit_plus_follow(0)
        } else {
            self.bit_plus_follow(1)
        }
    }

    /// Put `bit` to the output, and after it as many opposite bits as are
    /// held back.
    fn bit_plus_follow(&mut self, bit: usize) -> (r: Result<(), Error>)
        requires
            bit <= 1,
            out_ok(old(self)@.out),
        ensures
            r is Ok,
            out_ok(final(self)@.out),
            final(self).model == old(self).model,
            final(self)@.st == (EncState { pending: 0, ..old(self)@.st }),
            final(self)@.out == put_bits(
                old(self)@.out,
                bit_plus_pending(bit == 1, old(self)@.st.pending),
            ),
    {
        let ghost o = self@.out;
        let ghost total = self.bits_to_follow as nat;
        let _ = self.output_bit(bit);
        proof {
            assert(seq![bit == 1].drop_last() =~= Seq::<bool>::empty());
            assert(put_bits(o, Seq::<bool>::empty()) == o);
            assert(put_bits(o, seq![bit == 1]) == put_bit(o, bit == 1));
            assert(seq![bit == 1] + repeat_bit(bit != 1, 0) =~= seq![bit == 1]);
        }
        while self.bits_to_follow > 0
            invariant
                bit <= 1,
                out_ok(self@.out),
                self.model == old(self).model,
                self.low == old(self).low,
                self.high == old(self).high,
                self.bits_to_follow <= total,
                self@.out == put_bits(
                    o,
                    seq![bit == 1] + repeat_bit(bit != 1, (total - self.bits_to_follow) as nat),
                ),
            decreases self.bits_to_follow,
        {
            let ghost sofar = seq![bit == 1] + repeat_bit(
                bit != 1,
                (total - self.bits_to_follow) as nat,
            );
            let _ = self.output_bit(1 - bit);
            self.bits_to_follow -= 1;
            proof {
                let more = seq![bit == 1] + repeat_bit(
                    bit != 1,
                    (total - self.bits_to_follow) as nat,
                );
                assert(more.drop_last() =~= sofar);
                assert(more.last() == (bit != 1));
            }
        }
        Ok(())
    }

    /// Put one bit to the output.
    fn output_bit(&mut self, bit: usize) -> (r: Result<(), Error>)
        requires
            out_ok(old(self)@.out),
        ensures
            r is Ok,
            out_ok(final(self)@.out),
            final(self).model == old(self).model,
            final(self).low == old(self).low,
            final(self).high == old(self).high,
            final(self).bits_to_follow == old(self).bits_to_follow,
            final(self)@.out == put_bit(old(self)@.out, bit != 0),
    {
        self.buffer = self.buffer >> 1;
        if bit != 0 {
            self.buffer = self.buffer | 0x80;
        }
        self.bits_to_go -= 1;
        if self.bits_to_go == 0 {
            self.inner.push(self.buffer);
            self.bits_to_go = 8;
        }
        Ok(())
    }

    /// Write the byte that is being filled, where it holds a bit.
    fn done_outputting_bits(&mut self) -> (r: Result<(), Error>)
        requires
            out_ok(old(self)@.out),
        ensures
            r is Ok,
            final(self).model == old(self).model,
            final(self)@.st == old(self)@.st,
            final(self)@.out == out_finished(old(self)@.out),
    {
        if self.bits_to_go < 8 {
            self.inner.push(self.buffer >> (self.bits_to_go as u8));
        }
        Ok(())
    }

    /// Give up the encoder for the buffer it wrote to.
    pub fn into_inner(self) -> (inner: Vec<u8>)
        ensures
            inner@ == self@.out.bytes,
    {
        self.inner
    }

    /// Code the bytes of `data` and return their number.
    pub fn write(&mut self, data: &[u8]) -> (r: Result<usize, Error>)
        requires
            old(self).wf(),
            old(self)@.st.pending + data@.len() * MAX_CODE <= u128::MAX,
        ensures
            r == Ok::<usize, Error>(data@.len() as usize),
            final(self).wf(),
            final(self)@ == written(old(self)@, data@),
            final(self)@.st.pending <= old(self)@.st.pending + data@.len() * MAX_CODE,
    {
        let mut i: usize = 0;
        while i < data.len()
            invariant
                i <= data@.len(),
                self.wf(),
                self@ == written(old(self)@, data@.take(i as int)),
                self@.st.pending <= old(self)@.st.pending + i * MAX_CODE,
                old(self)@.st.pending + data@.len() * MAX_CODE <= u128::MAX,
            decreases data@.len() - i,
        {
            proof {
                assert(data@.take(i + 1).drop_last() =~= data@.take(i as int));
                assert((i + 1) * MAX_CODE == i * MAX_CODE + MAX_CODE) by (nonlinear_arith);
                assert((i + 1) * MAX_CODE <= data@.len() * MAX_CODE) by (nonlinear_arith)
                    requires
                        i + 1 <= data@.len(),
                ;
            }
            let b = data[i];
            let symbol = self.model.char_to_index[b as usize];
            assert(1 <= self@.model.char_to_index[b as int] <= NO_OF_SYMBOLS);
            let _ = self.encode_symbol(symbol);
            self.model.update(symbol);
            i += 1;
        }
        proof {
            assert(data@.take(i as int) =~= data@);
        }
        Ok(data.len())
    }

    /// End the stream and write all pending output to the buffer.
    pub fn flush(&mut self) -> (r: Result<(), Error>)
        requires
            old(self).wf(),
            old(self)@.st.pending + MAX_CODE < u128::MAX,
        ensures
            r is Ok,
            final(self)@ == ended(old(self)@),
    {
        let _ = self.encode_symbol(EOF_SYMBOL);
        let _ = self.done_encoding();
        self.done_outputting_bits()
    }
}

/// Compress `input` with an adaptive model of order 0 and append the
/// compressed data to `output`.
pub fn compress(input: &[u8], output: Vec<u8>) -> (r: Result<Vec<u8>, Error>)
    ensures
        r matches Ok(out) && out@ == ended(written(encoder_start(output@), input@)).out.bytes,
{
    let mut cw = Encoder::new(output);
    let n: usize = input.len();
    proof {
        assert(n * MAX_CODE <= 0xffff_ffff_ffff_ffff * 0xffff_ffff) by (nonlinear_arith)
            requires
                0 <= n <= 0xffff_ffff_ffff_ffff,
        ;
        assert(n * MAX_CODE == input@.len() * MAX_CODE);
    }
    let _ = cw.write(input);
    let _ = cw.flush();
    Ok(cw.into_inner())
}

/// The state of the input of a decoder: the bytes that it has not read, the
/// bits of the current byte that it has not used, moved down to the lowest,
/// and their number, and the number of bytes of ones that it has read after
/// the end of the input.
pub struct InView {
    pub input: Seq<u8>,
    pub buffer: u8,
    pub bits_to_go: usize,
    pub garbage: usize,
}

/// The input can be asked for a bit.
pub open spec fn in_ok(v: InView) -> bool {
    v.bits_to_go <= 8 && v.garbage <= GARBAGE_BYTES
}

/// The number of bits that the input can still give.
pub open spec fn avail(v: InView) -> int {
    v.bits_to_go + 8 * v.input.len() + 8 * (GARBAGE_BYTES - v.garbage)
}

/// The next bit of the input, or `None` where the bytes of ones after its
/// end are used up.
pub open spec fn in_bit(v: InView) -> Option<bool> {
    if v.bits_to_go > 0 {
        Some(v.buffer & 1 == 1)
    } else if v.input.len() > 0 {
        Some(v.input[0] & 1 == 1)
    } else if v.garbage < GARBAGE_BYTES {
        Some(true)
    } else {
        None
    }
}

/// The state of the input after it was asked for a bit.
pub open spec fn in_next(v: InView) -> InView {
    if v.bits_to_go > 0 {
        InView { buffer: v.buffer >> 1, bits_to_go: (v.bits_to_go - 1) as usize, ..v }
    } else if v.input.len() > 0 {
        InView { input: v.input.skip(1), buffer: v.input[0] >> 1, bits_to_go: 7, ..v }
    } else if v.garbage < GARBAGE_BYTES {
        InView { buffer: 0xffu8 >> 1, bits_to_go: 7, garbage: (v.garbage + 1) as usize, ..v }
    } else {
        InView { garbage: (v.garbage + 1) as usize, ..v }
    }
}

/// An interval, the code value within it, and the input behind the code
/// value.
pub struct Scan {
    pub low: int,
    pub high: int,
    pub value: int,
    pub inp: InView,
}

/// The scan can go on: the interval lies in the code space, the code value
/// within it, and the input can be asked for a bit.
pub open spec fn scan_ok(s: Scan) -> bool {
    interval_ok(s.low, s.high) && s.low <= s.value <= s.high && in_ok(s.inp)
}

/// The scan after the interval was doubled until it is normalized, one bit
/// of input being taken into the code value per doubling; or `None` where
/// the input ends first.
pub open spec fn scanned(s: Scan) -> Option<Scan>
    decreases MAX_CODE - (s.high - s.low),
{
    if !interval_ok(s.low, s.high) {
        Some(s)
    } else {
        match step_of(s.low, s.high) {
            Step::Done => Some(s),
            step => match in_bit(s.inp) {
                None => None,
                Some(bit) => scanned(
                    Scan {
                        low: doubled_low(s.low, step),
                        high: doubled_high(s.high, step),
                        value: 2 * (s.value - step_offset(step)) + if bit {
                            1int
                        } else {
                            0int
                        },
                        inp: in_next(s.inp),
                    },
                ),
            },
        }
    }
}

/// The doubling keeps the scan in order and leaves the interval normalized;
/// it takes bits from the input, or else changes nothing.
pub proof fn lemma_scanned(s: Scan)
    requires
        scan_ok(s),
    ensures
        scanned(s) matches Some(t) ==> scan_ok(t) && normalized(t.low, t.high) && avail(t.inp)
            <= avail(s.inp) && (avail(t.inp) == avail(s.inp) ==> t == s),
    decreases MAX_CODE - (s.high - s.low),
{
    lemma_step(s.low, s.high);
    match step_of(s.low, s.high) {
        Step::Done => {},
        step => {
            match in_bit(s.inp) {
                None => {},
                Some(bit) => {
                    lemma_scanned(
                        Scan {
                            low: doubled_low(s.low, step),
                            high: doubled_high(s.high, step),
                            value: 2 * (s.value - step_offset(step)) + if bit {
                                1int
                            } else {
                                0int
                            },
                            inp: in_next(s.inp),
                        },
                    );
                },
            }
        },
    }
}

/// The first place from `from` on whose sum is at most `count`.
pub open spec fn find_place(cum: Seq<usize>, count: int, from: int) -> int
    decreases NO_OF_SYMBOLS - from,
{
    if from >= NO_OF_SYMBOLS || cum[from] <= count {
        from
    } else {
        find_place(cum, count, from + 1)
    }
}

/// The state of a decoder: its input, its model, the code value and the
/// interval, and whether it has found the end of the stream.
pub struct DecoderView {
    pub inp: InView,
    pub model: ModelView,
    pub value: int,
    pub low: int,
    pub high: int,
    pub eof: bool,
}

/// The decoder can decode a symbol.
pub open spec fn decoder_ok(v: DecoderView) -> bool {
    &&& in_ok(v.inp)
    &&& model_ok(v.model)
    &&& normalized(v.low, v.high)
    &&& v.low <= v.value <= v.high
}

/// The place of the symbol that the decoder finds.
pub open spec fn place_found(v: DecoderView) -> int {
    find_place(
        v.model.cum_freq,
        scaled_count(v.low, v.high, v.value, v.model.cum_freq[0] as int),
        1,
    )
}

/// The scan with the interval narrowed to the range of the symbol found.
pub open spec fn narrowed_scan(v: DecoderView) -> Scan {
    Scan {
        low: narrowed_low(
            v.low,
            v.high,
            v.model.cum_freq[place_found(v)] as int,
            v.model.cum_freq[0] as int,
        ),
        high: narrowed_high(
            v.low,
            v.high,
            v.model.cum_freq[place_found(v) - 1] as int,
            v.model.cum_freq[0] as int,
        ),
        value: v.value,
        inp: v.inp,
    }
}

/// The decoder with the interval, the code value and the input of a scan.
pub open spec fn with_scan(v: DecoderView, s: Scan) -> DecoderView {
    DecoderView { inp: s.inp, value: s.value, low: s.low, high: s.high, ..v }
}

/// The bytes that the decoder finds up to the end of the stream, or the
/// failure where the input ends first.
pub open spec fn decoded_from(v: DecoderView) -> Result<Seq<u8>, Error>
    decreases avail(v.inp), v.high - v.low,
    when decoder_ok(v)
{
    match scanned(narrowed_scan(v)) {
        None => Err(Error::UnexpectedEof),
        Some(s) => if place_found(v) == EOF_SYMBOL {
            Ok(Seq::empty())
        } else {
            proof {
                lemma_place_found(v);
                lemma_scanned(narrowed_scan(v));
            }
            crate::arith::decoder::after(
                seq![v.model.index_to_char[place_found(v)] as u8],
                decoded_from(
                    DecoderView {
                        model: updated(v.model, place_found(v)),
                        ..with_scan(v, s)
                    },
                ),
            )
        },
    }
}

/// The search for a place ends at a place from `from` on whose sum is at
/// most the count, after places whose sums are above it.
pub proof fn lemma_find_place(m: ModelView, count: int, from: int)
    requires
        model_ok(m),
        1 <= from <= NO_OF_SYMBOLS,
        0 <= count,
        m.cum_freq[from - 1] > count,
    ensures
        from <= find_place(m.cum_freq, count, from) <= NO_OF_SYMBOLS,
        m.cum_freq[find_place(m.cum_freq, count, from)] <= count,
        m.cum_freq[find_place(m.cum_freq, count, from) - 1] > count,
    decreases NO_OF_SYMBOLS - from,
{
    if from >= NO_OF_SYMBOLS || m.cum_freq[from] <= count {
    } else {
        lemma_find_place(m, count, from + 1);
    }
}

/// The decoder finds a place, and the code value lies within the interval
/// narrowed to the range of that place, which is smaller than the interval.
pub proof fn lemma_place_found(v: DecoderView)
    requires
        decoder_ok(v),
    ensures
        1 <= place_found(v) <= NO_OF_SYMBOLS,
        0 <= scaled_count(v.low, v.high, v.value, v.model.cum_freq[0] as int)
            < v.model.cum_freq[0],
        v.model.cum_freq[place_found(v)] <= scaled_count(
            v.low,
            v.high,
            v.value,
            v.model.cum_freq[0] as int,
        ) < v.model.cum_freq[place_found(v) - 1] <= v.model.cum_freq[0],
        scan_ok(narrowed_scan(v)),
        v.low <= narrowed_scan(v).low,
        narrowed_scan(v).high <= v.high,
        narrowed_scan(v).high - narrowed_scan(v).low < v.high - v.low,
        model_ok(updated(v.model, place_found(v))),
{
    let m = v.model;
    let total = m.cum_freq[0] as int;
    lemma_cum(m, 0);
    lemma_count_to_interval(v.low, v.high, v.value, 0, total, total);
    let count = scaled_count(v.low, v.high, v.value, total);
    lemma_find_place(m, count, 1);
    let place = place_found(v);
    lemma_cum(m, place);
    lemma_cum(m, place - 1);
    lemma_cum_down(m, place - 1);
    assert(m.cum_freq[place - 1] == m.cum_freq[place] + m.freq[place]);
    let lc = m.cum_freq[place] as int;
    let hc = m.cum_freq[place - 1] as int;
    lemma_count_to_interval(v.low, v.high, v.value, lc, hc, total);
    lemma_narrow(v.low, v.high, lc, hc, total);
    lemma_updated_ok(m, place);
}

/// The input gives a bit as long as one is left, and has one less after
/// it.
pub proof fn lemma_in_bit(v: InView)
    requires
        in_ok(v),
    ensures
        in_bit(v) is Some <==> avail(v) > 0,
        in_bit(v) is Some ==> in_ok(in_next(v)) && avail(in_next(v)) == avail(v) - 1,
{
}

/// The state in which a decoder starts on `input`, before it has read
/// anything.
pub open spec fn decoder_unprimed(input: Seq<u8>) -> DecoderView {
    DecoderView {
        inp: InView { input: input, buffer: 0, bits_to_go: 0, garbage: 0 },
        model: fresh_model(),
        value: 0,
        low: 0,
        high: MAX_CODE as int,
        eof: false,
    }
}

/// The state after `n` bits were taken into the code value.
pub open spec fn primed(v: DecoderView, n: nat) -> DecoderView
    decreases n,
{
    if n == 0 {
        v
    } else {
        DecoderView {
            inp: in_next(primed(v, (n - 1) as nat).inp),
            value: 2 * primed(v, (n - 1) as nat).value + if in_bit(primed(v, (n - 1) as nat).inp)
                == Some(true) {
                1int
            } else {
                0int
            },
            ..v
        }
    }
}

/// The state in which a decoder starts to decode `input`: the first bits
/// are in the code value.
pub open spec fn decoder_start(input: Seq<u8>) -> DecoderView {
    primed(decoder_unprimed(input), CODE_VALUE_BITS as nat)
}

/// Taking up to 32 bits into the code value of a fresh decoder never
/// reaches the end of the input, and gives a code value of that many bits.
pub proof fn lemma_primed(input: Seq<u8>, n: nat)
    requires
        n <= CODE_VALUE_BITS,
    ensures
        in_ok(primed(decoder_unprimed(input), n).inp),
        avail(primed(decoder_unprimed(input), n).inp) == avail(decoder_unprimed(input).inp) - n,
        0 <= primed(decoder_unprimed(input), n).value < vstd::arithmetic::power2::pow2(n),
        primed(decoder_unprimed(input), n).model == fresh_model(),
        primed(decoder_unprimed(input), n).low == 0,
        primed(decoder_unprimed(input), n).high == MAX_CODE,
        !primed(decoder_unprimed(input), n).eof,
    decreases n,
{
    vstd::arithmetic::power2::lemma2_to64();
    if n > 0 {
        lemma_primed(input, (n - 1) as nat);
        lemma_in_bit(primed(decoder_unprimed(input), (n - 1) as nat).inp);
        vstd::arithmetic::power2::lemma_pow2_unfold(n);
    }
}

/// An arithmetic decoder.
pub struct Decoder<'a> {
    inner: &'a [u8],
    pos: usize,
    model: Model,
    value: CodeValue,
    low: CodeValue,
    high: CodeValue,
    buffer: u8,
    bits_to_go: usize,
    garbage_bits: usize,
    eof: bool,
}

impl<'a> Decoder<'a> {
    /// The state of the decoder.
    pub closed spec fn view(&self) -> DecoderView {
        DecoderView {
            inp: InView {
                input: self.inner@.skip(self.pos as int),
                buffer: self.buffer,
                bits_to_go: self.bits_to_go,
                garbage: self.garbage_bits,
            },
            model: self.model@,
            value: self.value as int,
            low: self.low as int,
            high: self.high as int,
            eof: self.eof,
        }
    }

    /// The decoder's representation is consistent.
    pub closed spec fn inv(&self) -> bool {
        self.pos <= self.inner@.len()
    }

    /// The decoder can decode a symbol.
    pub open spec fn wf(&self) -> bool {
        self.inv() && decoder_ok(self@)
    }

    /// Create a decoder for the data in `input`.  This takes the first bits
    /// into the code value.
    pub fn new(input: &'a [u8]) -> (r: Result<Decoder<'a>, Error>)
        ensures
            r matches Ok(dec) && dec.wf() && dec@ == decoder_start(input@),
    {
        let mut dec = Decoder {
            inner: input,
            pos: 0,
            model: Model::new(),
            value: 0,
            low: 0,
            high: MAX_CODE,
            buffer: 0,
            bits_to_go: 0,
            garbage_bits: 0,
            eof: false,
        };
        proof {
            assert(input@.skip(0) =~= input@);
        }
        let mut i: usize = 0;
        while i < CODE_VALUE_BITS
            invariant
                i <= CODE_VALUE_BITS,
                dec.inv(),
                dec@ == primed(decoder_unprimed(input@), i as nat),
            decreases CODE_VALUE_BITS - i,
        {
            proof {
                lemma_primed(input@, i as nat);
                lemma_primed(input@, (i + 1) as nat);
                lemma_in_bit(dec@.inp);
                vstd::arithmetic::power2::lemma2_to64();
                if i + 1 < 32 {
                    vstd::arithmetic::power2::lemma_pow2_strictly_increases((i + 1) as nat, 32);
                }
            }
            let bit = match dec.input_bit() {
                Ok(bit) => bit,
                Err(e) => {
                    return Err(e);
                },
            };
            dec.value = 2 * dec.value + (bit as CodeValue);
            i += 1;
        }
        proof {
            lemma_primed(input@, CODE_VALUE_BITS as nat);
            vstd::arithmetic::power2::lemma2_to64();
        }
        Ok(dec)
    }

    /// Take the next bit from the input.
    fn input_bit(&mut self) -> (r: Result<usize, Error>)
        requires
            old(self).inv(),
            in_ok(old(self)@.inp),
        ensures
            final(self).inv(),
            final(self).model == old(self).model,
            final(self).value == old(self).value,
            final(self).low == old(self).low,
            final(self).high == old(self).high,
            final(self).eof == old(self).eof,
            final(self)@.inp == in_next(old(self)@.inp),
            match in_bit(old(self)@.inp) {
                Some(bit) => r == Ok::<usize, Error>(if bit { 1usize } else { 0usize }),
                None => r == Err::<usize, Error>(Error::UnexpectedEof),
            },
    {
        if self.bits_to_go == 0 {
            if self.pos < self.inner.len() {
                proof {
                    assert(self.inner@.skip(self.pos as int).skip(1) =~= self.inner@.skip(
                        self.pos + 1,
                    ));
                    assert(self.inner@.skip(self.pos as int)[0] == self.inner@[self.pos as int]);
                }
                self.buffer = self.inner[self.pos];
                self.pos += 1;
            } else {
                self.garbage_bits += 1;
                if self.garbage_bits > GARBAGE_BYTES {
                    return Err(Error::UnexpectedEof);
                } else {
                    self.buffer = 0xff;
                }
            }
            self.bits_to_go = 8;
        }
        let buffer = self.buffer;
        assert(buffer & 1 <= 1) by (bit_vector);
        assert(0xffu8 & 1 == 1) by (bit_vector);
        let t = self.buffer & 1;
        self.buffer = self.buffer >> 1;
        self.bits_to_go -= 1;
        Ok(t as usize)
    }

    /// Decode the next symbol and return its place in the model; the model
    /// is not updated.  Fails where the input ends first; the decoder cannot
    /// be used after that.
    pub fn decode_symbol(&mut self) -> (r: Result<Symbol, Error>)
        requires
            old(self).wf(),
        ensures
            match scanned(narrowed_scan(old(self)@)) {
                Some(s) => r == Ok::<Symbol, Error>(place_found(old(self)@) as usize) && final(self).wf() && final(self)@ == with_scan(old(self)@, s) && 1 <= place_found(old(self)@)
                    <= NO_OF_SYMBOLS,
                None => r == Err::<Symbol, Error>(Error::UnexpectedEof),
            },
    {
        let ghost v = self@;
        proof {
            lemma_place_found(v);
            lemma_scanned(narrowed_scan(v));
            lemma_cum(v.model, 0);
        }
        let range: CodeValue = self.high - self.low + 1;
        let total = self.model.cum_freq[0] as CodeValue;
        proof {
            assert((self.value - self.low + 1) * total <= 0x1_0000_0000 * 0x3fff)
                by (nonlinear_arith)
                requires
                    0 <= self.value - self.low + 1 <= 0x1_0000_0000,
                    0 <= total <= 0x3fff,
            ;
            assert((self.value - self.low + 1) * total >= 1) by (nonlinear_arith)
                requires
                    1 <= self.value - self.low + 1,
                    1 <= total,
            ;
        }
        let cum = ((self.value - self.low + 1) * total - 1) / range;

        // Find the symbol whose range holds the cumulative frequency.
        let mut symbol: usize = 1;
        while self.model.cum_freq[symbol] as CodeValue > cum
            invariant
                1 <= symbol <= NO_OF_SYMBOLS,
                self@ == v,
                model_ok(v.model),
                find_place(v.model.cum_freq, cum as int, symbol as int) == find_place(
                    v.model.cum_freq,
                    cum as int,
                    1,
                ),
            decreases NO_OF_SYMBOLS - symbol,
        {
            symbol += 1;
        }

        let lo_freq = self.model.cum_freq[symbol] as CodeValue;
        let hi_freq = self.model.cum_freq[symbol - 1] as CodeValue;
        proof {
            assert(symbol == place_found(v));
            assert(range * hi_freq <= 0x1_0000_0000 * 0x3fff) by (nonlinear_arith)
                requires
                    0 <= range <= 0x1_0000_0000,
                    0 <= hi_freq <= 0x3fff,
            ;
            assert(range * lo_freq <= 0x1_0000_0000 * 0x3fff) by (nonlinear_arith)
                requires
                    0 <= range <= 0x1_0000_0000,
                    0 <= lo_freq <= 0x3fff,
            ;
        }

        self.high = self.low + (range * hi_freq / total) - 1;
        self.low = self.low + (range * lo_freq / total);
        let ghost start = narrowed_scan(v);

        loop
            invariant
                self.inv(),
                self.model == old(self).model,
                self.eof == old(self).eof,
                v == old(self)@,
                start == narrowed_scan(v),
                scan_ok(
                    Scan {
                        low: self.low as int,
                        high: self.high as int,
                        value: self.value as int,
                        inp: self@.inp,
                    },
                ),
                scanned(
                    Scan {
                        low: self.low as int,
                        high: self.high as int,
                        value: self.value as int,
                        inp: self@.inp,
                    },
                ) == scanned(start),
            ensures
                self.inv(),
                self.model == old(self).model,
                self.eof == old(self).eof,
                scanned(start) == Some(
                    Scan {
                        low: self.low as int,
                        high: self.high as int,
                        value: self.value as int,
                        inp: self@.inp,
                    },
                ),
            decreases MAX_CODE - (self.high - self.low),
        {
            let ghost here = Scan {
                low: self.low as int,
                high: self.high as int,
                value: self.value as int,
                inp: self@.inp,
            };
            proof {
                lemma_step(self.low as int, self.high as int);
                lemma_in_bit(self@.inp);
            }
            if self.high < ONE_HALF {
                // Nothing to subtract.
            } else if self.low >= ONE_HALF {
                self.value -= ONE_HALF;
                self.low -= ONE_HALF;
                self.high -= ONE_HALF;
            } else if self.low >= ONE_FOURTH && self.high < THREE_FOURTHS {
                self.value -= ONE_FOURTH;
                self.low -= ONE_FOURTH;
                self.high -= ONE_FOURTH;
            } else {
                break ;
            }
            let bit = match self.input_bit() {
                Ok(bit) => bit,
                Err(e) => {
                    assert(scanned(here) is None);
                    return Err(e);
                },
            };
            self.low = 2 * self.low;
            self.high = 2 * self.high + 1;
            self.value = 2 * self.value + (bit as CodeValue);
        }
        Ok(symbol)
    }

    /// Decode all bytes up to the end of the stream and append them to
    /// `output`.  Returns the number of bytes appended.  Fails where the
    /// input, and the bytes of ones that are read after it, end first.
    pub fn read_to_end(&mut self, output: &mut Vec<u8>) -> (r: Result<usize, Error>)
        requires
            old(self).wf(),
            !old(self)@.eof,
        ensures
            match decoded_from(old(self)@) {
                Ok(s) => r == Ok::<usize, Error>(s.len() as usize) && final(output)@ == old(output)@ + s && final(self)@.eof,
                Err(e) => r == Err::<usize, Error>(e),
            },
            r matches Err(e) ==> e == Error::UnexpectedEof,
    {
        let begin: usize = output.len();
        let ghost goal = decoded_from(self@);
        let ghost mut done: Seq<u8> = Seq::empty();
        proof {
            assert(old(output)@ + done =~= old(output)@);
        }
        loop
            invariant_except_break
                self.wf(),
                goal == crate::arith::decoder::after(done, decoded_from(self@)),
            invariant
                goal == decoded_from(old(self)@),
                begin == old(output)@.len(),
                output@ == old(output)@ + done,
            ensures
                goal == Ok::<Seq<u8>, Error>(done),
                self@.eof,
            decreases avail(self@.inp), self.high - self.low,
        {
            let ghost here = self@;
            proof {
                lemma_place_found(here);
                lemma_scanned(narrowed_scan(here));
            }
            let symbol = match self.decode_symbol() {
                Ok(symbol) => symbol,
                Err(e) => {
                    return Err(e);
                },
            };
            if symbol == EOF_SYMBOL {
                self.eof = true;
                proof {
                    assert(done + Seq::<u8>::empty() =~= done);
                }
                break ;
            }
            let ch = self.model.index_to_char[symbol];
            assert(here.model.index_to_char[symbol as int] < NO_OF_CHARS);
            output.push(ch as u8);
            self.model.update(symbol);
            proof {
                let next = decoded_from(self@);
                assert(crate::arith::decoder::after(
                    done,
                    crate::arith::decoder::after(seq![ch as u8], next),
                ) == crate::arith::decoder::after(done.push(ch as u8), next)) by {
                    if let Ok(s) = next {
                        assert(done + (seq![ch as u8] + s) =~= done.push(ch as u8) + s);
                    }
                }
                done = done.push(ch as u8);
                assert(output@ =~= old(output)@ + done);
            }
        }
        Ok(output.len() - begin)
    }
}

/// Decompress the data in `input`, which `compress` made, and append the
/// decompressed bytes to `output`.
pub fn decompress(input: &[u8], output: Vec<u8>) -> (r: Result<Vec<u8>, Error>)
    ensures
        match decoded_from(decoder_start(input@)) {
            Ok(s) => r matches Ok(out) && out@ == output@ + s,
            Err(e) => r matches Err(x) && x == e,
        },
        r matches Err(e) ==> e == Error::UnexpectedEof,
{
    let mut out = output;
    let mut cr = match Decoder::new(input) {
        Ok(cr) => cr,
        Err(e) => {
            return Err(e);
        },
    };
    match cr.read_to_end(&mut out) {
        Ok(_) => Ok(out),
        Err(e) => Err(e),
    }
}

} // verus!
