//! A simple compressor in the manner of LZ4.
//!
//! The compressed stream is a sequence of runs.  A run starts with a token
//! whose high four bits give the number of literals and whose low four bits
//! give the length of a match; a value of 15 says that the number goes on
//! in the bytes that follow, each added to it, up to the first byte below
//! 255.  The literals follow, and where the run has a match, the position
//! of the match in the window of the last 4096 bytes, written like a length.
//!
//! The compressor finds matches through a table from the first four bytes
//! of a string to the last position at which they stood, and through the
//! chain of the earlier positions.

use std::collections::HashMap;
use vstd::prelude::*;
use crate::error::Error;
use crate::bits::{
    extends_bytes, lemma_extends_bytes_push, lemma_extends_bytes_self, lemma_extends_bytes_trans,
};

verus! {

broadcast use vstd::std_specs::hash::group_hash_axioms;

pub const INDEX_BIT_COUNT: usize = 12;

pub const LENGTH_BIT_COUNT: usize = 8;

/// The size of the window.
pub const WINDOW_SIZE: usize = 4096;

pub const RAW_LOOK_AHEAD_SIZE: usize = 256;

/// The longest match that is not worth coding as one.
pub const BREAK_EVEN: usize = 2;

/// The number of bytes that the compressor looks ahead.
pub const LOOK_AHEAD_SIZE: usize = 258;

/// The number of earlier positions that are tried for a match.
pub const MAX_TRIES: usize = 10;

/// Write a number as a length goes on after its token: bytes of 255 as
/// long as the rest is that large, and the rest.
fn put_number(output: &mut Vec<u8>, n: usize)
    ensures
        extends_bytes(final(output)@, old(output)@),
        final(output)@.len() == old(output)@.len() + n / 255 + 1,
{
    proof {
        lemma_extends_bytes_self(output@);
    }
    let mut left = n;
    while left >= 255
        invariant
            left <= n,
            (n - left) % 255 == 0,
            extends_bytes(output@, old(output)@),
            output@.len() == old(output)@.len() + (n - left) / 255,
        decreases left,
    {
        let ghost before = output@;
        output.push(255);
        proof {
            lemma_extends_bytes_push(before, 255, old(output)@);
        }
        left -= 255;
    }
    let ghost before = output@;
    output.push(left as u8);
    proof {
        lemma_extends_bytes_push(before, left as u8, old(output)@);
    }
}

/// The four bytes that stand in the window from `p` on, around its end, as
/// a number, the first byte highest.
pub open spec fn key_at(window: Seq<u8>, p: int) -> int {
    ((window[p % (WINDOW_SIZE as int)] as u32) << 24) + ((window[(p + 1) % (
    WINDOW_SIZE as int)] as u32) << 16) + ((window[(p + 2) % (WINDOW_SIZE as int)] as u32) << 8)
        + window[(p + 3) % (WINDOW_SIZE as int)] as u32
}

/// The tables by which the compressor finds matches: for a key the last
/// position at which it stood, for a position its key, and for a position
/// the position before it in its chain.
pub struct Tables {
    pub last: Map<u32, usize>,
    pub hashes: Seq<u32>,
    pub next: Seq<Option<usize>>,
}

/// The tables after the string at `pos` was taken out: the position before
/// it in its chain takes its place.
pub open spec fn deleted(t: Tables, pos: int) -> Tables {
    Tables {
        last: match t.next[pos] {
            Some(before) => t.last.remove(t.hashes[pos]).insert(t.hashes[before as int], before),
            None => t.last.remove(t.hashes[pos]),
        },
        hashes: t.hashes.update(pos, 0),
        next: t.next.update(pos, None),
    }
}

/// The number of bytes, from the `at`-th on and `bound` at most, up to
/// which the bytes of the window from `a` on and from `b` on are equal.
pub open spec fn common_length(window: Seq<u8>, a: int, b: int, at: nat, bound: nat) -> nat
    decreases bound - at,
{
    if at >= bound || window[(a + at) % (WINDOW_SIZE as int)] != window[(b + at) % (
    WINDOW_SIZE as int)] {
        at
    } else {
        common_length(window, a, b, at + 1, bound)
    }
}

/// The position and the length that the search along a chain ends with.
/// It stands at `pos` after `tries` steps, with `max_pos` and `max_len` as
/// the best so far; each step measures the match at the best position
/// against the bytes at `current`, and goes on to the position before.
pub open spec fn searched(
    window: Seq<u8>,
    next: Seq<Option<usize>>,
    current: int,
    bound: nat,
    max_pos: usize,
    max_len: nat,
    pos: usize,
    tries: nat,
) -> (usize, nat)
    decreases MAX_TRIES + 1 - tries,
{
    let len = common_length(window, max_pos as int, current, 0, bound);
    let best_pos = if len > max_len {
        pos
    } else {
        max_pos
    };
    let best_len = if len > max_len {
        len
    } else {
        max_len
    };
    match next[pos as int] {
        None => (best_pos, best_len),
        Some(before) => if tries + 1 > MAX_TRIES {
            (best_pos, best_len)
        } else {
            searched(window, next, current, bound, best_pos, best_len, before, tries + 1)
        },
    }
}

/// The match that the compressor finds for the string at `current` with
/// the key `key`: none where the key did not stand in the window before.
pub open spec fn found_match(t: Tables, window: Seq<u8>, key: u32, current: int, bound: nat)
    -> Option<(usize, nat)> {
    if t.last.contains_key(key) && t.last[key] < WINDOW_SIZE {
        Some(searched(window, t.next, current, bound, t.last[key], 4, t.last[key], 0))
    } else {
        None
    }
}

/// The tables after the string at `current` was entered under `key`, with
/// the position of the match that was found for it before it in its chain.
pub open spec fn entered(t: Tables, window: Seq<u8>, key: u32, current: int, bound: nat) -> Tables {
    Tables {
        last: t.last.insert(key, current as usize),
        hashes: t.hashes.update(current, key),
        next: t.next.update(
            current,
            match found_match(t, window, key, current, bound) {
                Some(found) => Some(found.0),
                None => None,
            },
        ),
    }
}

/// The position and the length of the match for the string at `pos`, of
/// which `bound` bytes wait; the length is zero where fewer than four bytes
/// wait or the first four bytes did not stand in the window before.
pub open spec fn match_for(t: Tables, window: Seq<u8>, pos: int, bound: nat) -> (usize, nat) {
    if bound < 4 {
        (0, 0)
    } else {
        match found_match(t, window, key_at(window, pos) as u32, pos, bound) {
            Some(found) => found,
            None => (0, 0),
        }
    }
}

/// The tables after the string at `pos` was entered, which it is where
/// four bytes or more wait.
pub open spec fn added(t: Tables, window: Seq<u8>, pos: int, bound: nat) -> Tables {
    if bound < 4 {
        t
    } else {
        entered(t, window, key_at(window, pos) as u32, pos, bound)
    }
}

/// The compressor.
pub struct Compressor<'a> {
    input: &'a [u8],
    in_pos: usize,
    output: Vec<u8>,
    hash_table: HashMap<u32, usize>,
    window: Vec<u8>,
    hashes: Vec<u32>,
    next: Vec<Option<usize>>,
    literals: Vec<u8>,
}

impl<'a> Compressor<'a> {
    /// The input that was not read.
    pub closed spec fn unread(&self) -> Seq<u8> {
        self.input@.skip(self.in_pos as int)
    }

    /// The compressed bytes written so far.
    pub closed spec fn out(&self) -> Seq<u8> {
        self.output@
    }

    /// The tables by which matches are found.
    pub closed spec fn tables(&self) -> Tables {
        Tables { last: self.hash_table@, hashes: self.hashes@, next: self.next@ }
    }

    /// The compressor is in order.
    pub closed spec fn wf(&self) -> bool {
        &&& self.in_pos <= self.input@.len()
        &&& self.window@.len() == WINDOW_SIZE
        &&& self.hashes@.len() == WINDOW_SIZE
        &&& self.next@.len() == WINDOW_SIZE
        &&& forall|i: int|
            0 <= i < WINDOW_SIZE ==> (#[trigger] self.next@[i] matches Some(p) ==> p < WINDOW_SIZE)
    }

    /// Create a compressor that reads `r` and appends to `w`.
    pub fn new(r: &'a [u8], w: Vec<u8>) -> (c: Compressor<'a>)
        ensures
            c.wf(),
            c.unread() == r@,
            c.out() == w@,
    {
        let mut window: Vec<u8> = Vec::new();
        let mut hashes: Vec<u32> = Vec::new();
        let mut next: Vec<Option<usize>> = Vec::new();
        let mut i: usize = 0;
        while i < WINDOW_SIZE
            invariant
                i <= WINDOW_SIZE,
                window@.len() == i,
                hashes@.len() == i,
                next@.len() == i,
                forall|j: int| 0 <= j < i ==> #[trigger] next@[j] is None,
            decreases WINDOW_SIZE - i,
        {
            window.push(0);
            hashes.push(0);
            next.push(None);
            i += 1;
        }
        proof {
            assert(r@.skip(0) =~= r@);
        }
        Compressor {
            input: r,
            in_pos: 0,
            output: w,
            hash_table: HashMap::new(),
            window: window,
            hashes: hashes,
            next: next,
            literals: Vec::new(),
        }
    }

    /// Give up the compressor for the buffer it wrote to.
    pub fn finish(self) -> (w: Vec<u8>)
        ensures
            w@ == self.out(),
    {
        self.output
    }

    /// Reduce a position to the window.
    fn mod_window(&self, p: usize) -> (r: usize)
        ensures
            r == p % WINDOW_SIZE,
            r < WINDOW_SIZE,
    {
        p % WINDOW_SIZE
    }

    /// The four bytes at `p` as a number.
    fn hash_at(&self, p: usize) -> (h: u32)
        requires
            self.wf(),
            p < WINDOW_SIZE,
        ensures
            h == key_at(self.window@, p as int),
    {
        let b0 = self.window[self.mod_window(p)] as u32;
        let b1 = self.window[self.mod_window(p + 1)] as u32;
        let b2 = self.window[self.mod_window(p + 2)] as u32;
        let b3 = self.window[self.mod_window(p + 3)] as u32;
        assert((b0 << 24) + (b1 << 16) + (b2 << 8) + b3 <= 0xffff_ffff && (b1 << 16) <= 0xff_0000
            && (b2 << 8) <= 0xff00 && (b0 << 24) <= 0xff00_0000) by (bit_vector)
            requires
                b0 < 256,
                b1 < 256,
                b2 < 256,
                b3 < 256,
        ;
        (b0 << 24) + (b1 << 16) + (b2 << 8) + b3
    }

    /// The next byte of the input, or `None` at its end.
    fn getc(&mut self) -> (r: Result<Option<u8>, Error>)
        requires
            old(self).wf(),
        ensures
            final(self).wf(),
            r is Ok,
            final(self).output == old(self).output,
            final(self).literals == old(self).literals,
            r matches Ok(Some(_)) ==> final(self).unread().len() + 1 == old(self).unread().len(),
            r matches Ok(None) ==> old(self).unread().len() == 0 && final(self).unread().len()
                == 0,
    {
        if self.in_pos < self.input.len() {
            let b = self.input[self.in_pos];
            self.in_pos += 1;
            Ok(Some(b))
        } else {
            Ok(None)
        }
    }

    /// Take the string at `pos` out of the table: the position before it
    /// in its chain takes its place.
    fn delete_string(&mut self, pos: usize)
        requires
            old(self).wf(),
            pos < WINDOW_SIZE,
        ensures
            final(self).wf(),
            final(self).tables() == deleted(old(self).tables(), pos as int),
            final(self).window == old(self).window,
            final(self).unread() == old(self).unread(),
            final(self).output == old(self).output,
            final(self).literals == old(self).literals,
    {
        let hsh = self.hashes[pos];
        let _ = self.hash_table.remove(&hsh);
        assert(self.next@[pos as int] matches Some(p) ==> p < WINDOW_SIZE);
        match self.next[pos] {
            Some(next_pos) => {
                let _ = self.hash_table.insert(self.hashes[next_pos], next_pos);
            },
            None => {},
        }
        self.hashes.set(pos, 0);
        let ghost before = self.next@;
        self.next.set(pos, None);
        proof {
            assert forall|i: int| 0 <= i < WINDOW_SIZE implies (#[trigger] self.next@[i] matches Some(
                p,
            ) ==> p < WINDOW_SIZE) by {
                assert(before[i] matches Some(p) ==> p < WINDOW_SIZE);
            }
        }
    }

    /// Enter the string at `current_pos` into the table under `hsh`, and
    /// look for a match among the positions at which the same four bytes
    /// stood: returns the position and the length of a match, which is
    /// given as at least four, or `None` where there is no such position.
    fn get_longest_match(&mut self, hsh: u32, current_pos: usize, look_ahead_bytes: usize) -> (r:
        Option<(usize, usize)>)
        requires
            old(self).wf(),
            current_pos < WINDOW_SIZE,
            look_ahead_bytes <= LOOK_AHEAD_SIZE,
        ensures
            final(self).wf(),
            match found_match(
                old(self).tables(),
                old(self).window@,
                hsh,
                current_pos as int,
                look_ahead_bytes as nat,
            ) {
                Some(found) => r == Some((found.0, found.1 as usize)) && found.1
                    <= LOOK_AHEAD_SIZE,
                None => r is None,
            },
            final(self).tables() == entered(
                old(self).tables(),
                old(self).window@,
                hsh,
                current_pos as int,
                look_ahead_bytes as nat,
            ),
            final(self).window == old(self).window,
            final(self).unread() == old(self).unread(),
            final(self).output == old(self).output,
            final(self).literals == old(self).literals,
            r matches Some(found) ==> found.0 < WINDOW_SIZE,
    {
        let ghost t0 = self.tables();
        let ghost goal = found_match(
            t0,
            self.window@,
            hsh,
            current_pos as int,
            look_ahead_bytes as nat,
        );
        let first = match self.hash_table.get(&hsh) {
            Some(hpos) => {
                // Positions are entered reduced to the window.
                if *hpos < WINDOW_SIZE {
                    Some(*hpos)
                } else {
                    None
                }
            },
            None => None,
        };
        let res = match first {
            Some(hpos) => {
                let mut max_pos = hpos;
                let mut max_len: usize = 4;
                let mut pos = max_pos;
                let mut iterations: usize = 0;
                loop
                    invariant_except_break
                        iterations <= MAX_TRIES,
                        goal == Some(
                            searched(
                                self.window@,
                                self.next@,
                                current_pos as int,
                                look_ahead_bytes as nat,
                                max_pos,
                                max_len as nat,
                                pos,
                                iterations as nat,
                            ),
                        ),
                    invariant
                        self.wf(),
                        *self == *old(self),
                        4 <= max_len <= LOOK_AHEAD_SIZE,
                        max_pos < WINDOW_SIZE,
                        pos < WINDOW_SIZE,
                        current_pos < WINDOW_SIZE,
                        look_ahead_bytes <= LOOK_AHEAD_SIZE,
                    ensures
                        max_pos < WINDOW_SIZE,
                        max_len <= LOOK_AHEAD_SIZE,
                        goal == Some((max_pos, max_len as nat)),
                    decreases MAX_TRIES + 1 - iterations,
                {
                    let ghost measured = common_length(
                        self.window@,
                        max_pos as int,
                        current_pos as int,
                        0,
                        look_ahead_bytes as nat,
                    );
                    let mut len: usize = 0;
                    while len < look_ahead_bytes
                        invariant
                            self.wf(),
                            len <= look_ahead_bytes <= LOOK_AHEAD_SIZE,
                            max_pos < WINDOW_SIZE,
                            current_pos < WINDOW_SIZE,
                            measured == common_length(
                                self.window@,
                                max_pos as int,
                                current_pos as int,
                                len as nat,
                                look_ahead_bytes as nat,
                            ),
                        ensures
                            len <= look_ahead_bytes,
                            len == measured,
                        decreases look_ahead_bytes - len,
                    {
                        if self.window[self.mod_window(max_pos + len)]
                            != self.window[self.mod_window(current_pos + len)] {
                            break ;
                        }
                        len += 1;
                    }
                    if len > max_len {
                        max_len = len;
                        max_pos = pos;
                    }
                    assert(self.next@[pos as int] matches Some(p) ==> p < WINDOW_SIZE);
                    match self.next[pos] {
                        Some(npos) => {
                            pos = npos;
                        },
                        None => {
                            break ;
                        },
                    }
                    iterations += 1;
                    if iterations > MAX_TRIES {
                        break ;
                    }
                }
                Some((max_pos, max_len))
            },
            None => None,
        };
        let _ = self.hash_table.insert(hsh, current_pos);
        self.hashes.set(current_pos, hsh);
        let ghost before = self.next@;
        match res {
            Some((p, _)) => {
                self.next.set(current_pos, Some(p));
            },
            None => {
                self.next.set(current_pos, None);
            },
        }
        proof {
            assert forall|i: int| 0 <= i < WINDOW_SIZE implies (#[trigger] self.next@[i] matches Some(
                p,
            ) ==> p < WINDOW_SIZE) by {
                assert(before[i] matches Some(p) ==> p < WINDOW_SIZE);
            }
        }
        res
    }

    /// Enter the string at `pos` into the table.  Returns the position of a
    /// match for it and the length of the match; the length is zero where
    /// fewer than four bytes are left or the first four bytes did not stand
    /// in the window before.
    fn add_string(&mut self, pos: usize, look_ahead_bytes: usize) -> (r: (usize, usize))
        requires
            old(self).wf(),
            pos < WINDOW_SIZE,
            look_ahead_bytes <= LOOK_AHEAD_SIZE,
        ensures
            final(self).wf(),
            r.0 == match_for(
                old(self).tables(),
                old(self).window@,
                pos as int,
                look_ahead_bytes as nat,
            ).0,
            r.1 == match_for(
                old(self).tables(),
                old(self).window@,
                pos as int,
                look_ahead_bytes as nat,
            ).1,
            final(self).tables() == added(
                old(self).tables(),
                old(self).window@,
                pos as int,
                look_ahead_bytes as nat,
            ),
            final(self).window == old(self).window,
            final(self).unread() == old(self).unread(),
            final(self).output == old(self).output,
            final(self).literals == old(self).literals,
            r.0 < WINDOW_SIZE,
    {
        if look_ahead_bytes < 4 {
            (0, 0)
        } else {
            let hsh = self.hash_at(pos);
            match self.get_longest_match(hsh, pos, look_ahead_bytes) {
                Some((hpos, hlen)) => (hpos, hlen),
                None => (0, 0),
            }
        }
    }

    /// Compress the whole input.
    pub fn process(&mut self) -> (r: Result<(), Error>)
        requires
            old(self).wf(),
        ensures
            final(self).wf(),
            r is Ok,
            final(self).unread().len() == 0,
            extends_bytes(final(self).out(), old(self).out()),
    {
        proof {
            lemma_extends_bytes_self(self.output@);
        }
        let mut current_position: usize = 0;
        let mut look_ahead_bytes: usize = 0;
        while look_ahead_bytes < LOOK_AHEAD_SIZE && self.in_pos < self.input.len()
            invariant
                look_ahead_bytes <= LOOK_AHEAD_SIZE,
                self.wf(),
                self.output == old(self).output,
            decreases LOOK_AHEAD_SIZE - look_ahead_bytes,
        {
            self.window.set(look_ahead_bytes, self.input[self.in_pos]);
            self.in_pos += 1;
            look_ahead_bytes += 1;
        }

        let mut match_length: usize = 0;
        let mut match_position: usize = 0;
        let first = self.add_string(current_position, look_ahead_bytes);
        match_position = first.0;
        while look_ahead_bytes > 0
            invariant
                self.wf(),
                current_position < WINDOW_SIZE,
                match_position < WINDOW_SIZE,
                look_ahead_bytes <= LOOK_AHEAD_SIZE,
                look_ahead_bytes < LOOK_AHEAD_SIZE ==> self.unread().len() == 0,
                extends_bytes(self.output@, old(self).output@),
            decreases self.unread().len() + look_ahead_bytes,
        {
            if match_length > look_ahead_bytes {
                match_length = look_ahead_bytes;
            }
            let replace_count: usize;
            if match_length <= BREAK_EVEN {
                self.literals.push(self.window[current_position]);
                replace_count = 1;
            } else {
                let ghost mid = self.output@;
                let _ = self.emit(match_position, match_length);
                proof {
                    lemma_extends_bytes_trans(self.output@, mid, old(self).output@);
                }

                replace_count = match_length;
            }
            let ghost left = self.unread().len() + look_ahead_bytes;
            let mut i: usize = 0;
            while i < replace_count
                invariant
                    i <= replace_count,
                    self.wf(),
                    current_position < WINDOW_SIZE,
                    match_position < WINDOW_SIZE,
                    look_ahead_bytes <= LOOK_AHEAD_SIZE,
                    look_ahead_bytes < LOOK_AHEAD_SIZE ==> self.unread().len() == 0,
                    replace_count - i <= look_ahead_bytes,
                    self.unread().len() + look_ahead_bytes + i == left,
                    extends_bytes(self.output@, old(self).output@),
                decreases replace_count - i,
            {
                let cp = self.mod_window(current_position + LOOK_AHEAD_SIZE);
                self.delete_string(cp);

                match self.getc() {
                    Ok(Some(c)) => {
                        self.window.set(cp, c);
                    },
                    _ => {
                        look_ahead_bytes -= 1;
                    },
                }
                current_position = self.mod_window(current_position + 1);
                if look_ahead_bytes > 0 {
                    let found = self.add_string(current_position, look_ahead_bytes);
                    match_position = found.0;
                    match_length = found.1;
                }
                i += 1;
            }
        }

        if self.literals.len() > 0 {
            let ghost mid = self.output@;
            let _ = self.emit(0, 0);
            proof {
                lemma_extends_bytes_trans(self.output@, mid, old(self).output@);
            }
        }

        Ok(())
    }

    /// Write a run: the literals that wait, and a match of `match_len`
    /// bytes at `match_pos` where `match_len` is not zero.
    fn emit(&mut self, match_pos: usize, match_len: usize) -> (r: Result<(), Error>)
        requires
            old(self).wf(),
        ensures
            final(self).wf(),
            r is Ok,
            final(self).unread() == old(self).unread(),
            final(self).literals@.len() == 0,
            extends_bytes(final(self).output@, old(self).output@),
    {
        proof {
            lemma_extends_bytes_self(self.output@);
        }
        let lit_count = self.literals.len();
        let lit_tok: u8 = if lit_count > 14 {
            15
        } else {
            lit_count as u8
        };
        let match_tok: u8 = if match_len > 14 {
            15
        } else {
            match_len as u8
        };
        let token = (lit_tok << 4) | match_tok;
        let ghost before = self.output@;
        self.output.push(token);
        proof {
            lemma_extends_bytes_push(before, token, old(self).output@);
        }
        if lit_count > 14 {
            let ghost mid = self.output@;
            put_number(&mut self.output, lit_count);
            proof {
                lemma_extends_bytes_trans(self.output@, mid, old(self).output@);
            }
        }
        let mut i: usize = 0;
        while i < lit_count
            invariant
                i <= lit_count,
                lit_count == self.literals@.len(),
                self.wf(),
                self.unread() == old(self).unread(),
                extends_bytes(self.output@, old(self).output@),
            decreases lit_count - i,
        {
            let ghost before = self.output@;
            self.output.push(self.literals[i]);
            proof {
                lemma_extends_bytes_push(before, self.literals@[i as int], old(self).output@);
            }
            i += 1;
        }
        self.literals.truncate(0);
        if match_len > 14 {
            let ghost mid = self.output@;
            put_number(&mut self.output, match_len);
            proof {
                lemma_extends_bytes_trans(self.output@, mid, old(self).output@);
            }
        }
        if match_len > 0 {
            let ghost mid = self.output@;
            put_number(&mut self.output, match_pos);
            proof {
                lemma_extends_bytes_trans(self.output@, mid, old(self).output@);
            }
        }
        Ok(())
    }
}

/// The window of a decompressor: the last bytes that were written, and the
/// position at which the next byte is put.
pub struct Window {
    pub bytes: Seq<u8>,
    pub position: int,
}

/// The window after the byte `c` was put into it.
pub open spec fn put_in(w: Window, c: u8) -> Window {
    Window { bytes: w.bytes.update(w.position, c), position: (w.position + 1) % (WINDOW_SIZE as int) }
}

/// The window after the literals `bytes` were put into it.
pub open spec fn with_literals(w: Window, bytes: Seq<u8>) -> Window
    decreases bytes.len(),
{
    if bytes.len() == 0 {
        w
    } else {
        put_in(with_literals(w, bytes.drop_last()), bytes.last())
    }
}

/// The window after `n` bytes were copied within it, byte by byte, from
/// the position `from` on.
pub open spec fn with_match(w: Window, from: int, n: nat) -> Window
    decreases n,
{
    if n == 0 {
        w
    } else {
        put_in(
            with_match(w, from, (n - 1) as nat),
            with_match(w, from, (n - 1) as nat).bytes[(from + (n - 1) % (WINDOW_SIZE as int)) % (
            WINDOW_SIZE as int)],
        )
    }
}

/// The `n` bytes that such a copy writes.
pub open spec fn match_bytes(w: Window, from: int, n: nat) -> Seq<u8>
    decreases n,
{
    if n == 0 {
        Seq::empty()
    } else {
        match_bytes(w, from, (n - 1) as nat).push(
            with_match(w, from, (n - 1) as nat).bytes[(from + (n - 1) % (WINDOW_SIZE as int)) % (
            WINDOW_SIZE as int)],
        )
    }
}

/// The number that goes on in `input` after the bytes that made up `sum`,
/// and the input behind it; `None` where the input ends within the number
/// or the number does not fit.
pub open spec fn number_from(input: Seq<u8>, sum: nat) -> Option<(nat, Seq<u8>)>
    decreases input.len(),
{
    if input.len() == 0 || sum > usize::MAX - 510 {
        None
    } else if input[0] == 255 {
        number_from(input.skip(1), sum + 255)
    } else {
        Some((sum + input[0] as nat, input.skip(1)))
    }
}

/// The number at the start of `input`, written as a length goes on after
/// its token, and the input behind it.  At the end of the input the number
/// is zero.
pub open spec fn number_at(input: Seq<u8>) -> Option<(nat, Seq<u8>)> {
    if input.len() == 0 {
        Some((0, input))
    } else {
        number_from(input, 0)
    }
}

/// The number for which the four bits `tok` of a token stand, and the
/// input behind it: 15 says that the number follows in the input.
pub open spec fn field_at(tok: nat, input: Seq<u8>) -> Option<(nat, Seq<u8>)> {
    if tok == 15 {
        number_at(input)
    } else {
        Some((tok, input))
    }
}

/// A number takes up some of the input.
pub proof fn lemma_number_from(input: Seq<u8>, sum: nat)
    ensures
        number_from(input, sum) matches Some(found) ==> found.1.len() < input.len() && found.0
            <= usize::MAX,
    decreases input.len(),
{
    if input.len() > 0 && sum <= usize::MAX - 510 && input[0] == 255 {
        lemma_number_from(input.skip(1), sum + 255);
    }
}

/// What is behind a field is no longer than the input.
pub proof fn lemma_field_at(tok: nat, input: Seq<u8>)
    ensures
        field_at(tok, input) matches Some(found) ==> found.1.len() <= input.len(),
{
    lemma_number_from(input, 0);
}

/// A result with `done` put before the bytes of a success.
pub open spec fn behind(done: Seq<u8>, r: Option<Seq<u8>>) -> Option<Seq<u8>> {
    match r {
        Some(s) => Some(done + s),
        None => None,
    }
}

/// A run as it stands in the input: its literals, the length and the
/// position of its match, and the input behind it.
pub struct Run {
    pub literals: Seq<u8>,
    pub match_len: nat,
    pub match_pos: nat,
    pub rest: Seq<u8>,
}

/// The run at the start of `input`, which is not empty; `None` where the
/// input ends within the run.
pub open spec fn run_at(input: Seq<u8>) -> Option<Run> {
    match field_at(input[0] as nat / 16, input.skip(1)) {
        None => None,
        Some((lit_len, b)) => if b.len() < lit_len {
            None
        } else {
            match field_at(input[0] as nat % 16, b.skip(lit_len as int)) {
                None => None,
                Some((match_len, d)) => match number_at(d) {
                    None => None,
                    Some((match_pos, e)) => Some(
                        Run {
                            literals: b.take(lit_len as int),
                            match_len: match_len,
                            match_pos: match_pos,
                            rest: e,
                        },
                    ),
                },
            }
        },
    }
}

/// A run takes up some of the input.
pub proof fn lemma_run_at(input: Seq<u8>)
    requires
        input.len() > 0,
    ensures
        run_at(input) matches Some(run) ==> run.rest.len() < input.len(),
{
    let a = input.skip(1);
    lemma_field_at(input[0] as nat / 16, a);
    match field_at(input[0] as nat / 16, a) {
        Some((lit_len, b)) => {
            if b.len() >= lit_len {
                let c = b.skip(lit_len as int);
                lemma_field_at(input[0] as nat % 16, c);
                match field_at(input[0] as nat % 16, c) {
                    Some((match_len, d)) => {
                        lemma_number_from(d, 0);
                    },
                    None => {},
                }
            }
        },
        None => {},
    }
}

/// The position in the window at which the match of a run starts.
pub open spec fn match_start(run: Run) -> int {
    (run.match_pos % WINDOW_SIZE as nat) as int
}

/// The bytes for which a run stands where the window is `w`.
pub open spec fn written(w: Window, run: Run) -> Seq<u8> {
    run.literals + match_bytes(with_literals(w, run.literals), match_start(run), run.match_len)
}

/// The window after a run.
pub open spec fn after_run(w: Window, run: Run) -> Window {
    with_match(with_literals(w, run.literals), match_start(run), run.match_len)
}

/// The bytes for which the runs in `input` stand, decoded with the window
/// `w`; `None` where the input ends within a run.
pub open spec fn runs(w: Window, input: Seq<u8>) -> Option<Seq<u8>>
    decreases input.len(),
{
    if input.len() == 0 {
        Some(Seq::empty())
    } else {
        match run_at(input) {
            None => None,
            Some(run) => if run.rest.len() < input.len() {
                behind(written(w, run), runs(after_run(w, run), run.rest))
            } else {
                None
            },
        }
    }
}

/// What decompressing `input` gives.
pub open spec fn decoded(input: Seq<u8>) -> Option<Seq<u8>> {
    runs(Window { bytes: Seq::new(WINDOW_SIZE as nat, |i: int| 0u8), position: 0 }, input)
}

/// The decompressor.
pub struct Decompressor<'a> {
    input: &'a [u8],
    in_pos: usize,
    output: Vec<u8>,
    window: Vec<u8>,
}

impl<'a> Decompressor<'a> {
    /// The input that was not read.
    pub closed spec fn unread(&self) -> Seq<u8> {
        self.input@.skip(self.in_pos as int)
    }

    /// The decompressed bytes written so far.
    pub closed spec fn out(&self) -> Seq<u8> {
        self.output@
    }

    /// The bytes in the window.
    pub closed spec fn window(&self) -> Seq<u8> {
        self.window@
    }

    /// The decompressor is in order.
    pub closed spec fn wf(&self) -> bool {
        self.in_pos <= self.input@.len() <= usize::MAX && self.window@.len() == WINDOW_SIZE
    }

    /// Create a decompressor that reads `r` and appends to `w`.
    pub fn new(r: &'a [u8], w: Vec<u8>) -> (d: Decompressor<'a>)
        ensures
            d.wf(),
            d.unread() == r@,
            d.out() == w@,
            d.window() == Seq::new(WINDOW_SIZE as nat, |i: int| 0u8),
    {
        let mut window: Vec<u8> = Vec::new();
        let mut i: usize = 0;
        while i < WINDOW_SIZE
            invariant
                i <= WINDOW_SIZE,
                window@.len() == i,
                forall|j: int| 0 <= j < i ==> window@[j] == 0,
            decreases WINDOW_SIZE - i,
        {
            window.push(0);
            i += 1;
        }
        proof {
            assert(r@.skip(0) =~= r@);
            assert(window@ =~= Seq::new(WINDOW_SIZE as nat, |i: int| 0u8));
        }
        let _ = r.len();
        Decompressor { input: r, in_pos: 0, output: w, window: window }
    }

    /// Give up the decompressor for the buffer it wrote to.
    pub fn finish(self) -> (w: Vec<u8>)
        ensures
            w@ == self.out(),
    {
        self.output
    }

    /// The next byte of the input, or `None` at its end.
    fn getc(&mut self) -> (r: Result<Option<u8>, Error>)
        requires
            old(self).wf(),
        ensures
            final(self).wf(),
            final(self).output == old(self).output,
            final(self).window == old(self).window,
            old(self).unread().len() > 0 ==> r == Ok::<Option<u8>, Error>(
                Some(old(self).unread()[0]),
            ) && final(self).unread() == old(self).unread().skip(1),
            old(self).unread().len() == 0 ==> r == Ok::<Option<u8>, Error>(None)
                && final(self).unread() == old(self).unread(),
    {
        if self.in_pos < self.input.len() {
            let b = self.input[self.in_pos];
            proof {
                assert(self.input@.skip(self.in_pos as int).skip(1) =~= self.input@.skip(
                    self.in_pos + 1,
                ));
            }
            self.in_pos += 1;
            Ok(Some(b))
        } else {
            Ok(None)
        }
    }

    /// Reduce a position to the window.
    fn mod_window(&self, p: usize) -> (r: usize)
        ensures
            r == p % WINDOW_SIZE,
            r < WINDOW_SIZE,
    {
        p % WINDOW_SIZE
    }

    /// Read a number as `put_number` writes it.  Returns the number and the
    /// number of bytes that it took; both are zero at the end of the input.
    /// Fails where the input ends within the number, or the number does not
    /// fit.
    fn get_len(&mut self) -> (r: Result<(usize, usize), Error>)
        requires
            old(self).wf(),
        ensures
            final(self).wf(),
            final(self).output == old(self).output,
            final(self).window == old(self).window,
            match number_at(old(self).unread()) {
                Some((n, rest)) => r matches Ok(found) && found.0 == n && final(self).unread()
                    == rest,
                None => r == Err::<(usize, usize), Error>(Error::UnexpectedEof),
            },
    {
        let mut llen: usize = 0;
        let mut l: usize = 0;
        let ghost goal = number_at(self.unread());
        match self.getc() {
            Ok(Some(first)) => {
                let mut c = first;
                llen += 1;
                let ghost mut at = old(self).unread();
                while c == 255
                    invariant
                        self.wf(),
                        self.output == old(self).output,
                        self.window == old(self).window,
                        at.len() > 0,
                        at[0] == c,
                        self.unread() == at.skip(1),
                        at.len() <= old(self).unread().len() <= usize::MAX,
                        llen + at.len() <= old(self).unread().len() + 1,
                        goal == number_at(old(self).unread()),
                        goal == number_from(at, l as nat),
                    decreases at.len(),
                {
                    if l > usize::MAX - 510 {
                        return Err(Error::UnexpectedEof);
                    }
                    l += 255;
                    proof {
                        at = at.skip(1);
                    }
                    match self.getc() {
                        Ok(Some(cc)) => {
                            llen += 1;
                            c = cc;
                        },
                        _ => {
                            return Err(Error::UnexpectedEof);
                        },
                    }
                }
                if l > usize::MAX - 510 {
                    return Err(Error::UnexpectedEof);
                }
                l += c as usize;
            },
            _ => {},
        }
        Ok((l, llen))
    }

    /// Put `c` into the window at `current_position` and into the output.
    fn put(&mut self, current_position: usize, c: u8) -> (next: usize)
        requires
            old(self).wf(),
            current_position < WINDOW_SIZE,
        ensures
            final(self).wf(),
            final(self).unread() == old(self).unread(),
            final(self).output@ == old(self).output@.push(c),
            next < WINDOW_SIZE,
            (Window { bytes: final(self).window@, position: next as int }) == put_in(
                Window { bytes: old(self).window@, position: current_position as int },
                c,
            ),
    {
        self.window.set(current_position, c);
        self.output.push(c);
        self.mod_window(current_position + 1)
    }

    /// Read the number for which the four bits `tok` of a token stand.
    fn read_field(&mut self, tok: u8) -> (r: Result<usize, Error>)
        requires
            old(self).wf(),
            tok <= 15,
        ensures
            final(self).wf(),
            final(self).output == old(self).output,
            final(self).window == old(self).window,
            match field_at(tok as nat, old(self).unread()) {
                Some((n, rest)) => r == Ok::<usize, Error>(n as usize) && n <= usize::MAX && final(self).unread() == rest,
                None => r == Err::<usize, Error>(Error::UnexpectedEof),
            },
    {
        if tok == 15 {
            proof {
                lemma_number_from(self.unread(), 0);
            }
            match self.get_len() {
                Ok(l) => Ok(l.0),
                Err(e) => Err(e),
            }
        } else {
            Ok(tok as usize)
        }
    }

    /// Put the next `n` bytes of the input into the window from
    /// `current_position` on and into the output.  Fails where the input
    /// ends before.
    fn put_literals(&mut self, current_position: usize, n: usize) -> (r: Result<usize, Error>)
        requires
            old(self).wf(),
            current_position < WINDOW_SIZE,
        ensures
            final(self).wf(),
            extends_bytes(final(self).output@, old(self).output@),
            old(self).unread().len() < n ==> r == Err::<usize, Error>(Error::UnexpectedEof),
            old(self).unread().len() >= n ==> (r matches Ok(next) && next < WINDOW_SIZE && final(self).unread() == old(self).unread().skip(n as int) && final(self).output@ == old(self).output@ + old(self).unread().take(n as int) && (Window {
                bytes: final(self).window@,
                position: next as int,
            }) == with_literals(
                Window { bytes: old(self).window@, position: current_position as int },
                old(self).unread().take(n as int),
            )),
    {
        let ghost b = self.unread();
        let ghost w0 = Window { bytes: self.window@, position: current_position as int };
        proof {
            lemma_extends_bytes_self(self.output@);
            assert(b.skip(0) =~= b);
            assert(old(self).output@ + b.take(0) =~= old(self).output@);
        }
        let mut position = current_position;
        let mut i: usize = 0;
        while i < n
            invariant
                i <= n,
                i <= b.len(),
                b == old(self).unread(),
                self.wf(),
                position < WINDOW_SIZE,
                self.unread() == b.skip(i as int),
                self.output@ == old(self).output@ + b.take(i as int),
                (Window { bytes: self.window@, position: position as int }) == with_literals(
                    w0,
                    b.take(i as int),
                ),
                extends_bytes(self.output@, old(self).output@),
            decreases n - i,
        {
            match self.getc() {
                Ok(Some(c)) => {
                    let ghost before = self.output@;
                    position = self.put(position, c);
                    proof {
                        lemma_extends_bytes_push(before, c, old(self).output@);
                        assert(b.skip(i as int).skip(1) =~= b.skip(i + 1));
                        assert(b.take(i + 1).drop_last() =~= b.take(i as int));
                        assert(self.output@ =~= old(self).output@ + b.take(i + 1));
                    }
                },
                _ => {
                    return Err(Error::UnexpectedEof);
                },
            }
            i += 1;
        }
        Ok(position)
    }

    /// Copy `n` bytes within the window, byte by byte, from the position
    /// `from` on to `current_position` on, and put them into the output.
    fn copy_match(&mut self, current_position: usize, from: usize, n: usize) -> (next: usize)
        requires
            old(self).wf(),
            current_position < WINDOW_SIZE,
            from < WINDOW_SIZE,
        ensures
            final(self).wf(),
            next < WINDOW_SIZE,
            final(self).unread() == old(self).unread(),
            extends_bytes(final(self).output@, old(self).output@),
            final(self).output@ == old(self).output@ + match_bytes(
                Window { bytes: old(self).window@, position: current_position as int },
                from as int,
                n as nat,
            ),
            (Window { bytes: final(self).window@, position: next as int }) == with_match(
                Window { bytes: old(self).window@, position: current_position as int },
                from as int,
                n as nat,
            ),
    {
        let ghost w1 = Window { bytes: self.window@, position: current_position as int };
        proof {
            lemma_extends_bytes_self(self.output@);
            assert(old(self).output@ + match_bytes(w1, from as int, 0) =~= old(self).output@);
        }
        let mut position = current_position;
        let mut i: usize = 0;
        while i < n
            invariant
                i <= n,
                from < WINDOW_SIZE,
                self.wf(),
                position < WINDOW_SIZE,
                self.unread() == old(self).unread(),
                self.output@ == old(self).output@ + match_bytes(w1, from as int, i as nat),
                (Window { bytes: self.window@, position: position as int }) == with_match(
                    w1,
                    from as int,
                    i as nat,
                ),
                extends_bytes(self.output@, old(self).output@),
            decreases n - i,
        {
            let c = self.window[self.mod_window(from + (i % WINDOW_SIZE))];
            let ghost before = self.output@;
            position = self.put(position, c);
            proof {
                lemma_extends_bytes_push(before, c, old(self).output@);
                assert(self.output@ =~= old(self).output@ + match_bytes(
                    w1,
                    from as int,
                    (i + 1) as nat,
                ));
            }
            i += 1;
        }
        position
    }

    /// Decompress the whole input and append the bytes for which it stands
    /// to the output.  Fails where the input ends within a run; the bytes
    /// up to there are appended all the same.
    pub fn process(&mut self) -> (r: Result<(), Error>)
        requires
            old(self).wf(),
        ensures
            final(self).wf(),
            match runs(Window { bytes: old(self).window(), position: 0 }, old(self).unread()) {
                Some(s) => r == Ok::<(), Error>(()) && final(self).out() == old(self).out() + s,
                None => r == Err::<(), Error>(Error::UnexpectedEof),
            },
            r is Ok ==> final(self).unread().len() == 0,
            extends_bytes(final(self).out(), old(self).out()),
    {
        proof {
            lemma_extends_bytes_self(self.output@);
        }
        let ghost start = self.output@;
        let ghost goal = runs(Window { bytes: self.window@, position: 0 }, self.unread());
        let ghost mut done: Seq<u8> = Seq::empty();
        proof {
            assert(start + done =~= start);
            assert(behind(done, goal) == goal) by {
                if goal is Some {
                    assert(done + goal->0 =~= goal->0);
                }
            }
        }
        let mut current_position: usize = 0;
        loop
            invariant
                self.wf(),
                current_position < WINDOW_SIZE,
                start == old(self).output@,
                self.output@ == start + done,
                goal == runs(
                    Window { bytes: old(self).window(), position: 0 },
                    old(self).unread(),
                ),
                goal == behind(
                    done,
                    runs(
                        Window { bytes: self.window@, position: current_position as int },
                        self.unread(),
                    ),
                ),
                extends_bytes(self.output@, old(self).output@),
            decreases self.unread().len(),
        {
            let ghost input = self.unread();
            let ghost w0 = Window { bytes: self.window@, position: current_position as int };
            let token = match self.getc() {
                Ok(Some(token)) => token,
                _ => {
                    proof {
                        assert(done + Seq::<u8>::empty() =~= done);
                    }
                    return Ok(());
                },
            };
            proof {
                lemma_run_at(input);
            }
            let lit_tok = token >> 4;
            let match_tok = token & 0x0f;
            assert(match_tok <= 15 && lit_tok <= 15 && lit_tok == token / 16 && match_tok == token
                % 16) by (bit_vector)
                requires
                    match_tok == token & 0x0f,
                    lit_tok == token >> 4,
            ;
            let lit_len = match self.read_field(lit_tok) {
                Ok(l) => l,
                Err(e) => {
                    return Err(e);
                },
            };
            let ghost mid = self.output@;
            let put = self.put_literals(current_position, lit_len);
            proof {
                lemma_extends_bytes_trans(self.output@, mid, old(self).output@);
            }
            current_position = match put {
                Ok(next) => next,
                Err(e) => {
                    return Err(e);
                },
            };
            let match_len = match self.read_field(match_tok) {
                Ok(l) => l,
                Err(e) => {
                    return Err(e);
                },
            };
            let match_pos = match self.get_len() {
                Ok(l) => l.0,
                Err(e) => {
                    return Err(e);
                },
            };
            let from = self.mod_window(match_pos);
            let ghost before_match = self.output@;
            current_position = self.copy_match(current_position, from, match_len);
            proof {
                let run = run_at(input)->0;
                lemma_extends_bytes_trans(self.output@, before_match, old(self).output@);
                let more = done + written(w0, run);
                assert(self.output@ =~= start + more);
                let next = runs(after_run(w0, run), run.rest);
                assert(goal == behind(more, next)) by {
                    if next is Some {
                        assert(done + (written(w0, run) + next->0) =~= more + next->0);
                    }
                }
                done = more;
            }
        }
    }
}

/// Compress `input` and append the compressed data to `output`.
pub fn compress(input: &[u8], output: Vec<u8>) -> (r: Result<Vec<u8>, Error>)
    ensures
        r matches Ok(out) && extends_bytes(out@, output@),
{
    let mut compressor = Compressor::new(input, output);
    let _ = compressor.process();
    Ok(compressor.finish())
}

/// Decompress the data in `input` and append the decompressed bytes to
/// `output`.  Fails where the input ends within a run.
pub fn decompress(input: &[u8], output: Vec<u8>) -> (r: Result<Vec<u8>, Error>)
    ensures
        match decoded(input@) {
            Some(s) => r matches Ok(out) && out@ == output@ + s,
            None => r matches Err(e) && e == Error::UnexpectedEof,
        },
{
    let mut decompressor = Decompressor::new(input, output);
    match decompressor.process() {
        Ok(()) => Ok(decompressor.finish()),
        Err(e) => Err(e),
    }
}

} // verus!
