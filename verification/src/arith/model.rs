//! The adaptive frequency model of the arithmetic coder.
//!
//! The model counts how often each symbol has occurred and keeps the counts
//! in cumulative form: entry `i` of the table is the number of occurrences
//! of all symbols below `i`.  Entry 0 is zero and the last entry is the
//! total.  Every symbol has a count of at least one, so that every symbol
//! can be coded at any time.

use vstd::prelude::*;

verus! {

/// A symbol: a byte value, or the end-of-stream marker.
pub type Symbol = u16;

/// The symbol that marks the end of a stream.
pub const EOF: Symbol = 256;

/// The number of symbols.
pub const SYM_CNT: usize = 257;

/// The total count at which all counts are halved.
pub const MAX_FREQ: u64 = 0x3fff;

/// The range of a symbol within the model: the cumulative counts below and
/// up to the symbol, and the total count.
#[derive(Debug, Clone, Copy, PartialEq, Eq, Structural)]
pub struct Prob {
    pub low: u64,
    pub high: u64,
    pub total: u64,
}

/// A table has an entry for every symbol and one more, starts at zero and
/// gives every symbol a count of at least one.
pub open spec fn table_ok(f: Seq<int>) -> bool {
    &&& f.len() == SYM_CNT + 1
    &&& f[0] == 0
    &&& forall|i: int| 0 <= i < SYM_CNT ==> f[i] < #[trigger] f[i + 1]
}

/// A table as it stands between two updates: its total is below the limit.
pub open spec fn model_ok(f: Seq<int>) -> bool {
    table_ok(f) && f[SYM_CNT as int] < MAX_FREQ
}

/// The table of a fresh model: every symbol has been seen once.
pub open spec fn initial_table() -> Seq<int> {
    Seq::new((SYM_CNT + 1) as nat, |i: int| i)
}

/// The count of symbol `sym`.
pub open spec fn count_of(f: Seq<int>, sym: int) -> int {
    f[sym + 1] - f[sym]
}

/// The range of symbol `sym`.
pub open spec fn prob_of(f: Seq<int>, sym: int) -> (int, int, int) {
    (f[sym], f[sym + 1], f[SYM_CNT as int])
}

/// The first symbol from `from` on whose range ends above `value`.
pub open spec fn find_symbol(f: Seq<int>, value: int, from: int) -> int
    decreases SYM_CNT - from,
{
    if from >= SYM_CNT - 1 || value < f[from + 1] {
        from
    } else {
        find_symbol(f, value, from + 1)
    }
}

/// The symbol whose range holds `value`: the smallest symbol whose range
/// ends above it.
pub open spec fn symbol_at(f: Seq<int>, value: int) -> int {
    find_symbol(f, value, 0)
}

/// The table after one more occurrence of `sym` has been counted: every
/// entry above `sym` is one larger.
pub open spec fn bumped(f: Seq<int>, sym: int) -> Seq<int> {
    Seq::new(f.len(), |i: int| if i > sym { f[i] + 1 } else { f[i] })
}

/// Half of a count, rounded down, but at least one.
pub open spec fn halved(c: int) -> int {
    if c / 2 >= 1 {
        c / 2
    } else {
        1
    }
}

/// The sum of the halved counts of the symbols below `i`.
pub open spec fn halved_sum(f: Seq<int>, i: int) -> int
    decreases i,
{
    if i <= 0 {
        0
    } else {
        halved_sum(f, i - 1) + halved(count_of(f, i - 1))
    }
}

/// The table with every count halved.
pub open spec fn rescaled(f: Seq<int>) -> Seq<int> {
    Seq::new(f.len(), |i: int| halved_sum(f, i))
}

/// The table after an update for `sym`: the occurrence is counted, and the
/// counts are halved where the total has reached the limit.
pub open spec fn updated(f: Seq<int>, sym: int) -> Seq<int> {
    if bumped(f, sym)[SYM_CNT as int] >= MAX_FREQ {
        rescaled(bumped(f, sym))
    } else {
        bumped(f, sym)
    }
}

/// The table after an update for each symbol of `syms` in turn.
pub open spec fn replayed(f: Seq<int>, syms: Seq<int>) -> Seq<int>
    decreases syms.len(),
{
    if syms.len() == 0 {
        f
    } else {
        updated(replayed(f, syms.drop_last()), syms.last())
    }
}

/// The symbols that a list of pairs of a symbol and a number of occurrences
/// stands for: each symbol as often as its pair says, the pairs in order.
pub open spec fn history(counts: Seq<(u8, u64)>) -> Seq<int>
    decreases counts.len(),
{
    if counts.len() == 0 {
        Seq::empty()
    } else {
        history(counts.drop_last()) + Seq::new(
            counts.last().1 as nat,
            |i: int| counts.last().0 as int,
        )
    }
}

/// The sum of the halved counts below `i` grows with `i`, by at least one
/// per symbol, stays at or below the sum of the counts, and twice the sum is
/// at most the sum of the counts plus `i`.
pub proof fn lemma_halved_sum(f: Seq<int>, i: int)
    requires
        table_ok(f),
        0 <= i <= SYM_CNT,
    ensures
        i <= halved_sum(f, i) <= f[i],
        2 * halved_sum(f, i) <= f[i] + i,
        i < SYM_CNT ==> halved_sum(f, i) < halved_sum(f, i + 1),
    decreases i,
{
    if i > 0 {
        lemma_halved_sum(f, i - 1);
        assert(f[i - 1] < f[i - 1 + 1]);
    }
    if i < SYM_CNT {
        assert(f[i] < f[i + 1]);
        assert(halved_sum(f, i + 1) == halved_sum(f, i) + halved(count_of(f, i)));
    }
}

/// Halving the counts keeps every symbol codable: a table whose total is at
/// most the limit becomes a table whose total is below it, and every symbol
/// has the halved count, which is at least one.
pub proof fn lemma_rescaled_ok(f: Seq<int>)
    requires
        table_ok(f),
        f[SYM_CNT as int] <= MAX_FREQ,
    ensures
        model_ok(rescaled(f)),
        forall|s: int| 0 <= s < SYM_CNT ==> #[trigger] count_of(rescaled(f), s) == halved(count_of(f, s)),
        forall|s: int| 0 <= s < SYM_CNT ==> #[trigger] count_of(rescaled(f), s) >= 1,
{
    let g = rescaled(f);
    assert forall|i: int| 0 <= i < SYM_CNT implies g[i] < #[trigger] g[i + 1] by {
        lemma_halved_sum(f, i);
    }
    lemma_halved_sum(f, SYM_CNT as int);
    assert forall|s: int| 0 <= s < SYM_CNT implies #[trigger] count_of(g, s) == halved(
        count_of(f, s),
    ) by {
        assert(halved_sum(f, s + 1) == halved_sum(f, s) + halved(count_of(f, s)));
    }
}

/// An update keeps the table in order: it still starts at zero, every symbol
/// still has a count of at least one, and the total is below the limit.
pub proof fn lemma_updated_ok(f: Seq<int>, sym: int)
    requires
        model_ok(f),
        0 <= sym < SYM_CNT,
    ensures
        model_ok(updated(f, sym)),
        table_ok(bumped(f, sym)),
        bumped(f, sym)[SYM_CNT as int] == f[SYM_CNT as int] + 1,
{
    let g = bumped(f, sym);
    assert forall|i: int| 0 <= i < SYM_CNT implies g[i] < #[trigger] g[i + 1] by {
        assert(f[i] < f[i + 1]);
    }
    if g[SYM_CNT as int] >= MAX_FREQ {
        lemma_rescaled_ok(g);
    }
}

/// Replaying any symbols keeps the table in order.
pub proof fn lemma_replayed_ok(f: Seq<int>, syms: Seq<int>)
    requires
        model_ok(f),
        forall|i: int| 0 <= i < syms.len() ==> 0 <= #[trigger] syms[i] < SYM_CNT,
    ensures
        model_ok(replayed(f, syms)),
    decreases syms.len(),
{
    if syms.len() > 0 {
        lemma_replayed_ok(f, syms.drop_last());
        lemma_updated_ok(replayed(f, syms.drop_last()), syms.last());
    }
}

/// Replaying one run of symbols and then another is replaying the two in a
/// row: a model that was seeded in pieces is the model that saw the whole.
pub proof fn lemma_replayed_in_pieces(f: Seq<int>, first: Seq<int>, second: Seq<int>)
    ensures
        replayed(replayed(f, first), second) == replayed(f, first + second),
    decreases second.len(),
{
    if second.len() == 0 {
        assert(first + second =~= first);
    } else {
        lemma_replayed_in_pieces(f, first, second.drop_last());
        assert((first + second).drop_last() =~= first + second.drop_last());
        assert((first + second).last() == second.last());
    }
}

/// The symbols that two lists of pairs stand for, one after the other, are
/// those that the lists in a row stand for.
pub proof fn lemma_history_in_pieces(first: Seq<(u8, u64)>, second: Seq<(u8, u64)>)
    ensures
        history(first) + history(second) == history(first + second),
    decreases second.len(),
{
    if second.len() == 0 {
        assert(first + second =~= first);
        assert(history(first) + history(second) =~= history(first));
    } else {
        lemma_history_in_pieces(first, second.drop_last());
        assert((first + second).drop_last() =~= first + second.drop_last());
        assert((first + second).last() == second.last());
        let tail = Seq::new(second.last().1 as nat, |i: int| second.last().0 as int);
        assert(history(first) + (history(second.drop_last()) + tail) =~= (history(first) + history(
            second.drop_last(),
        )) + tail);
    }
}

/// In a table in order the entries grow with the index.
pub proof fn lemma_table_grows(f: Seq<int>, i: int, j: int)
    requires
        table_ok(f),
        0 <= i <= j <= SYM_CNT,
    ensures
        f[i] + (j - i) <= f[j],
    decreases j - i,
{
    if i < j {
        lemma_table_grows(f, i, j - 1);
        assert(f[j - 1] < f[j - 1 + 1]);
    }
}

/// The symbol whose range holds a value is the one found by the search from
/// any symbol at or below it.
pub proof fn lemma_find_symbol(f: Seq<int>, value: int, sym: int, from: int)
    requires
        table_ok(f),
        0 <= from <= sym < SYM_CNT,
        f[sym] <= value < f[sym + 1],
    ensures
        find_symbol(f, value, from) == sym,
    decreases sym - from,
{
    if from < sym {
        lemma_table_grows(f, from + 1, sym);
        lemma_find_symbol(f, value, sym, from + 1);
    }
}

/// A value below the total lies in the range of exactly one symbol, the one
/// that `symbol_at` gives.
pub proof fn lemma_symbol_at(f: Seq<int>, value: int)
    requires
        table_ok(f),
        0 <= value < f[SYM_CNT as int],
    ensures
        0 <= symbol_at(f, value) < SYM_CNT,
        f[symbol_at(f, value)] <= value < f[symbol_at(f, value) + 1],
{
    lemma_find_from(f, value, 0);
}

/// The search from a symbol whose range starts at or below the value ends
/// at the symbol whose range holds the value.
pub proof fn lemma_find_from(f: Seq<int>, value: int, from: int)
    requires
        table_ok(f),
        0 <= from < SYM_CNT,
        f[from] <= value < f[SYM_CNT as int],
    ensures
        from <= find_symbol(f, value, from) < SYM_CNT,
        f[find_symbol(f, value, from)] <= value < f[find_symbol(f, value, from) + 1],
    decreases SYM_CNT - from,
{
    if from >= SYM_CNT - 1 || value < f[from + 1] {
    } else {
        lemma_find_from(f, value, from + 1);
    }
}

/// The adaptive model: the table of cumulative counts.
pub struct State {
    freqs: Vec<u64>,
}

impl State {
    /// The table of cumulative counts.
    pub closed spec fn view(&self) -> Seq<int> {
        Seq::new(self.freqs@.len(), |i: int| self.freqs@[i] as int)
    }

    /// The model is in order and ready for an update.
    pub open spec fn wf(&self) -> bool {
        model_ok(self@)
    }

    /// Create a model in which every symbol has been seen once.
    pub fn new() -> (st: State)
        ensures
            st.wf(),
            st@ == initial_table(),
    {
        let mut freqs: Vec<u64> = Vec::new();
        let mut i: usize = 0;
        while i < SYM_CNT + 1
            invariant
                i <= SYM_CNT + 1,
                freqs@.len() == i,
                forall|j: int| 0 <= j < i ==> freqs@[j] == j,
            decreases SYM_CNT + 1 - i,
        {
            freqs.push(i as u64);
            i += 1;
        }
        let st = State { freqs };
        assert(st@ =~= initial_table());
        st
    }

    /// The total count.
    pub fn get_count(&self) -> (total: u64)
        requires
            self.wf(),
        ensures
            total == self@[SYM_CNT as int],
    {
        self.freqs[SYM_CNT]
    }

    /// The count of every symbol.
    pub fn counts(&self) -> (v: Vec<u64>)
        requires
            self.wf(),
        ensures
            v@.len() == SYM_CNT,
            forall|s: int| 0 <= s < SYM_CNT ==> v@[s] == count_of(self@, s),
    {
        let mut v: Vec<u64> = Vec::new();
        let mut i: usize = 0;
        while i < SYM_CNT
            invariant
                i <= SYM_CNT,
                self.wf(),
                v@.len() == i,
                forall|s: int| 0 <= s < i ==> v@[s] == count_of(self@, s),
            decreases SYM_CNT - i,
        {
            assert(self@[i as int] < self@[i + 1]);
            v.push(self.freqs[i + 1] - self.freqs[i]);
            i += 1;
        }
        v
    }

    /// Update the model as if it had seen each symbol of `counts` as often
    /// as its pair says, pair after pair, with every halving of the counts
    /// that these occurrences bring about.
    pub fn preload(&mut self, counts: &[(u8, u64)])
        requires
            old(self).wf(),
        ensures
            final(self).wf(),
            final(self)@ == replayed(old(self)@, history(counts@)),
    {
        let mut i: usize = 0;
        while i < counts.len()
            invariant
                self.wf(),
                i <= counts@.len(),
                self@ == replayed(old(self)@, history(counts@.take(i as int))),
            decreases counts@.len() - i,
        {
            let s = counts[i].0;
            let c = counts[i].1;
            let ghost before = history(counts@.take(i as int));
            let mut j: u64 = 0;
            while j < c
                invariant
                    self.wf(),
                    j <= c,
                    self@ == replayed(old(self)@, before + Seq::new(j as nat, |k: int| s as int)),
                decreases c - j,
            {
                let _ = self.get_prob_and_update(s as Symbol);
                proof {
                    let done = before + Seq::new(j as nat, |k: int| s as int);
                    let more = before + Seq::new((j + 1) as nat, |k: int| s as int);
                    assert(more.drop_last() =~= done);
                    assert(more.last() == s as int);
                }
                j += 1;
            }
            proof {
                let upto = counts@.take(i + 1);
                assert(upto.drop_last() =~= counts@.take(i as int));
                assert(upto.last() == counts@[i as int]);
                assert(before + Seq::new(0, |k: int| s as int) =~= before);
            }
            i += 1;
        }
        proof {
            assert(counts@.take(i as int) =~= counts@);
        }
    }

    /// Return the range of symbol `sym`, and update the model for one more
    /// occurrence of `sym`.
    pub fn get_prob_and_update(&mut self, sym: Symbol) -> (p: Prob)
        requires
            old(self).wf(),
            sym <= EOF,
        ensures
            final(self).wf(),
            final(self)@ == updated(old(self)@, sym as int),
            (p.low as int, p.high as int, p.total as int) == prob_of(old(self)@, sym as int),
    {
        let p = Prob {
            low: self.freqs[sym as usize],
            high: self.freqs[sym as usize + 1],
            total: self.freqs[SYM_CNT],
        };
        self.update(sym);
        p
    }

    /// Count one more occurrence of `sym`, and halve the counts where the
    /// total has reached the limit.
    pub fn update(&mut self, sym: Symbol)
        requires
            old(self).wf(),
            sym <= EOF,
        ensures
            final(self).wf(),
            final(self)@ == updated(old(self)@, sym as int),
    {
        let mut i: usize = sym as usize + 1;
        while i < SYM_CNT + 1
            invariant
                sym < i <= SYM_CNT + 1,
                self.freqs@.len() == SYM_CNT + 1,
                old(self).wf(),
                forall|j: int| 0 <= j < i ==> self.freqs@[j] == bumped(old(self)@, sym as int)[j],
                forall|j: int| i <= j <= SYM_CNT ==> self.freqs@[j] == old(self)@[j],
            decreases SYM_CNT + 1 - i,
        {
            proof {
                lemma_table_grows(old(self)@, i as int, SYM_CNT as int);
            }
            let v = self.freqs[i] + 1;
            self.freqs.set(i, v);
            i += 1;
        }
        proof {
            assert(self@ =~= bumped(old(self)@, sym as int));
            lemma_updated_ok(old(self)@, sym as int);
        }
        if self.freqs[SYM_CNT] >= MAX_FREQ {
            self.downscale();
        }
    }

    /// Halve every count, rounding down, but leave no count below one.
    pub fn downscale(&mut self)
        requires
            table_ok(old(self)@),
            old(self)@[SYM_CNT as int] <= MAX_FREQ,
        ensures
            final(self).wf(),
            final(self)@ == rescaled(old(self)@),
    {
        let ghost f = self@;
        // 1. Convert from cumulative counts to the counts of the symbols.
        let mut i: usize = SYM_CNT;
        while i > 0
            invariant
                i <= SYM_CNT,
                f == old(self)@,
                table_ok(f),
                self.freqs@.len() == SYM_CNT + 1,
                forall|j: int| 0 <= j <= i ==> self.freqs@[j] == f[j],
                forall|j: int| i < j <= SYM_CNT ==> self.freqs@[j] == count_of(f, j - 1),
            decreases i,
        {
            proof {
                assert(f[i - 1] < f[i - 1 + 1]);
            }
            let v = self.freqs[i] - self.freqs[i - 1];
            self.freqs.set(i, v);
            i -= 1;
        }
        // 2. Halve each count, making sure it never drops below one.
        let mut i: usize = 1;
        while i < SYM_CNT + 1
            invariant
                1 <= i <= SYM_CNT + 1,
                f == old(self)@,
                table_ok(f),
                self.freqs@.len() == SYM_CNT + 1,
                self.freqs@[0] == 0,
                forall|j: int| 1 <= j < i ==> self.freqs@[j] == halved(count_of(f, j - 1)),
                forall|j: int| i <= j <= SYM_CNT ==> self.freqs@[j] == count_of(f, j - 1),
            decreases SYM_CNT + 1 - i,
        {
            if self.freqs[i] > 1 {
                let v = self.freqs[i] / 2;
                self.freqs.set(i, v);
            }
            proof {
                assert(f[i - 1] < f[i - 1 + 1]);
            }
            i += 1;
        }
        // 3. Convert back to cumulative counts.
        let mut i: usize = 1;
        while i < SYM_CNT + 1
            invariant
                1 <= i <= SYM_CNT + 1,
                f == old(self)@,
                table_ok(f),
                f[SYM_CNT as int] <= MAX_FREQ,
                self.freqs@.len() == SYM_CNT + 1,
                forall|j: int| 0 <= j < i ==> self.freqs@[j] == halved_sum(f, j),
                forall|j: int| i <= j <= SYM_CNT ==> self.freqs@[j] == halved(count_of(f, j - 1)),
            decreases SYM_CNT + 1 - i,
        {
            proof {
                lemma_halved_sum(f, i as int);
                lemma_halved_sum(f, i - 1);
                lemma_table_grows(f, i as int, SYM_CNT as int);
            }
            let v = self.freqs[i] + self.freqs[i - 1];
            self.freqs.set(i, v);
            i += 1;
        }
        proof {
            assert(self@ =~= rescaled(f));
            lemma_rescaled_ok(f);
        }
    }

    /// Find the symbol whose range holds `scaled_value`, return it with its
    /// range, and update the model for one more occurrence of it.
    pub fn get_symbol_and_update(&mut self, scaled_value: u64) -> (r: (Prob, Symbol))
        requires
            old(self).wf(),
            scaled_value < old(self)@[SYM_CNT as int],
        ensures
            final(self).wf(),
            r.1 <= EOF,
            r.1 == symbol_at(old(self)@, scaled_value as int),
            old(self)@[r.1 as int] <= scaled_value < old(self)@[r.1 + 1],
            (r.0.low as int, r.0.high as int, r.0.total as int) == prob_of(
                old(self)@,
                r.1 as int,
            ),
            final(self)@ == updated(old(self)@, r.1 as int),
    {
        let mut i: usize = 0;
        while i < SYM_CNT - 1 && scaled_value >= self.freqs[i + 1]
            invariant
                i < SYM_CNT,
                self.wf(),
                self@ == old(self)@,
                self@[i as int] <= scaled_value < self@[SYM_CNT as int],
            decreases SYM_CNT - i,
        {
            i += 1;
        }
        proof {
            lemma_find_symbol(self@, scaled_value as int, i as int, 0);
        }
        let sym = i as Symbol;
        let prob = Prob {
            low: self.freqs[i],
            high: self.freqs[i + 1],
            total: self.freqs[SYM_CNT],
        };
        self.update(sym);
        (prob, sym)
    }
}

} // verus!
