//! A simple LZ77 compressor.
//!
//! The compressed stream is a sequence of tokens of three bytes: a length
//! and an offset into the window of the last 4096 bytes, packed into two
//! bytes, and the byte that follows the match.  An offset of zero stands for
//! no match.

use vstd::prelude::*;
use crate::error::Error;

verus! {

pub const WINDOW_BITS: usize = 12;

pub const LENGTH_BITS: usize = 4;

/// The shortest match that is coded as one.
pub const MIN_MATCH_LEN: usize = 4;

/// The longest match that a token can hold.
pub const MAX_MATCH_LEN: usize = 18;

/// The number of bytes that the compressor looks ahead.
pub const LOOK_AHEAD_BYTES: usize = 19;

/// The size of the window.
pub const WINDOW_SIZE: usize = 4096;

/// The number of entries of the hash table.
pub const HASHTAB_SIZE: usize = 1024;

/// A position reduced to the window.
pub open spec fn wrap(x: int) -> int {
    x % (WINDOW_SIZE as int)
}

/// Reduce a position to the window.
#[inline(always)]
pub fn mod_window(x: usize) -> (r: usize)
    ensures
        r == wrap(x as int),
        r < WINDOW_SIZE,
{
    x % WINDOW_SIZE
}

/// The hash of three bytes.
pub open spec fn hash3(h1: usize, h2: usize, h3: usize) -> usize {
    (((h1 >> 5) ^ (((h2 << 8) + h3) as usize)) % HASHTAB_SIZE) as usize
}

/// The hash of the three bytes of `window` from `pos` on.
pub open spec fn hash_of(window: Seq<u8>, pos: int) -> usize {
    hash3(
        window[pos] as usize,
        window[wrap(pos + 1)] as usize,
        window[wrap(pos + 2)] as usize,
    )
}

/// The number of bytes, up to `n`, in which the window agrees from `a` and
/// from `b` on.
pub open spec fn matched(window: Seq<u8>, a: int, b: int, n: nat) -> nat
    decreases n,
{
    if n == 0 {
        0
    } else if matched(window, a, b, (n - 1) as nat) == n - 1 && window[wrap(a + n - 1)]
        == window[wrap(b + n - 1)] {
        n
    } else {
        matched(window, a, b, (n - 1) as nat)
    }
}

/// The agreement never exceeds the bound, and once the bytes differ it no
/// longer grows.
pub proof fn lemma_matched(window: Seq<u8>, a: int, b: int, n: nat, m: nat)
    requires
        n <= m,
    ensures
        matched(window, a, b, n) <= n,
        matched(window, a, b, n) < n ==> matched(window, a, b, m) == matched(window, a, b, n),
    decreases m,
{
    if n > 0 {
        lemma_matched(window, a, b, (n - 1) as nat, (n - 1) as nat);
    }
    if n < m {
        lemma_matched(window, a, b, n, (m - 1) as nat);
        lemma_matched(window, a, b, (m - 1) as nat, (m - 1) as nat);
    }
}

/// The state of a compressor: the compressed bytes, the window, the hash
/// table, the position in the window, and the number of bytes that stand
/// in the window from there on and wait to be compressed.
pub struct WriterView {
    pub out: Seq<u8>,
    pub window: Seq<u8>,
    pub hashtab: Seq<usize>,
    pub position: usize,
    pub look_ahead: usize,
}

/// The state is in order.
pub open spec fn writer_ok(v: WriterView) -> bool {
    &&& v.window.len() == WINDOW_SIZE
    &&& v.hashtab.len() == HASHTAB_SIZE
    &&& v.position < WINDOW_SIZE
    &&& v.look_ahead <= LOOK_AHEAD_BYTES
    &&& forall|i: int| 0 <= i < HASHTAB_SIZE ==> #[trigger] v.hashtab[i] < WINDOW_SIZE
}

/// The earlier position that the hash table gives for the bytes at the
/// position.
pub open spec fn candidate(v: WriterView) -> usize {
    v.hashtab[hash_of(v.window, v.position as int) as int]
}

/// The distance from the candidate to the position.
pub open spec fn offset_of(v: WriterView) -> int {
    if candidate(v) < v.position {
        v.position - candidate(v)
    } else {
        v.position + (WINDOW_SIZE - candidate(v))
    }
}

/// The length of the match at the candidate.
pub open spec fn match_of(v: WriterView) -> nat {
    if v.look_ahead > MIN_MATCH_LEN - 1 && candidate(v) != v.position {
        matched(
            v.window,
            candidate(v) as int,
            v.position as int,
            if v.look_ahead - 1 < MAX_MATCH_LEN {
                (v.look_ahead - 1) as nat
            } else {
                MAX_MATCH_LEN as nat
            },
        )
    } else {
        0
    }
}

/// Whether the next token holds a match.
pub open spec fn has_match(v: WriterView) -> bool {
    offset_of(v) < WINDOW_SIZE - MAX_MATCH_LEN && match_of(v) >= MIN_MATCH_LEN
}

/// The first byte of a token for a match of length `len` at offset `ofs`.
pub open spec fn token_m1(len: usize, ofs: usize) -> u8 {
    (((len - MIN_MATCH_LEN) as u8) << 4) | (((ofs >> 8) as u8) & 0x0f)
}

/// The second byte of a token for a match at offset `ofs`.
pub open spec fn token_m2(ofs: usize) -> u8 {
    (ofs & 0xff) as u8
}

/// The next token.
pub open spec fn token_of(v: WriterView) -> Seq<u8> {
    if has_match(v) {
        seq![
            token_m1(match_of(v) as usize, offset_of(v) as usize),
            token_m2(offset_of(v) as usize),
            v.window[wrap(v.position + match_of(v))],
        ]
    } else {
        seq![0u8, 0u8, v.window[v.position as int]]
    }
}

/// The number of bytes that the next token stands for.
pub open spec fn token_span(v: WriterView) -> int {
    if has_match(v) {
        match_of(v) as int + 1
    } else {
        1
    }
}

/// The state after the next token was written.
pub open spec fn processed(v: WriterView) -> WriterView {
    WriterView {
        out: v.out + token_of(v),
        window: v.window,
        hashtab: v.hashtab.update(hash_of(v.window, v.position as int) as int, v.position),
        position: wrap(v.position + token_span(v)) as usize,
        look_ahead: (v.look_ahead - token_span(v)) as usize,
    }
}

/// The state after `byte` was put into the window behind the bytes that
/// wait.
pub open spec fn fed(v: WriterView, byte: u8) -> WriterView {
    WriterView {
        window: v.window.update(wrap(v.position + v.look_ahead), byte),
        look_ahead: (v.look_ahead + 1) as usize,
        ..v
    }
}

/// The state after `byte` was taken in: it is put into the window, and a
/// token is written where the look-ahead space is full.
pub open spec fn accepted(v: WriterView, byte: u8) -> WriterView {
    if fed(v, byte).look_ahead == LOOK_AHEAD_BYTES {
        processed(fed(v, byte))
    } else {
        fed(v, byte)
    }
}

/// The state after the bytes of `buf` were taken in.
pub open spec fn written(v: WriterView, buf: Seq<u8>) -> WriterView
    decreases buf.len(),
{
    if buf.len() == 0 {
        v
    } else {
        accepted(written(v, buf.drop_last()), buf.last())
    }
}

/// The state after tokens were written for all bytes that wait.
pub open spec fn flushed(v: WriterView) -> WriterView
    decreases v.look_ahead,
{
    if 0 < v.look_ahead && 1 <= token_span(v) <= v.look_ahead {
        flushed(processed(v))
    } else {
        v
    }
}

/// A token stands for at least one byte and for no more than wait.
pub proof fn lemma_token_span(v: WriterView)
    requires
        writer_ok(v),
        v.look_ahead > 0,
    ensures
        1 <= token_span(v) <= v.look_ahead,
        has_match(v) ==> MIN_MATCH_LEN <= match_of(v) <= MAX_MATCH_LEN && 0 < offset_of(v)
            < WINDOW_SIZE - MAX_MATCH_LEN,
        writer_ok(processed(v)),
{
    let n: nat = if v.look_ahead - 1 < MAX_MATCH_LEN {
        (v.look_ahead - 1) as nat
    } else {
        MAX_MATCH_LEN as nat
    };
    lemma_matched(v.window, candidate(v) as int, v.position as int, n, n);
    let h = hash_of(v.window, v.position as int);
    assert(v.hashtab[h as int] < WINDOW_SIZE);
    let p = processed(v);
    assert forall|i: int| 0 <= i < HASHTAB_SIZE implies #[trigger] p.hashtab[i] < WINDOW_SIZE by {
        assert(v.hashtab[i] < WINDOW_SIZE);
    }
}

/// An LZ77 compressor.
pub struct Writer {
    inner: Vec<u8>,
    window: Vec<u8>,
    hashtab: Vec<usize>,
    position: usize,
    look_ahead_bytes: usize,
}

impl Writer {
    /// The state of the compressor.
    pub closed spec fn view(&self) -> WriterView {
        WriterView {
            out: self.inner@,
            window: self.window@,
            hashtab: self.hashtab@,
            position: self.position,
            look_ahead: self.look_ahead_bytes,
        }
    }

    /// The compressor is in order.
    pub open spec fn wf(&self) -> bool {
        writer_ok(self@)
    }

    /// Create a new compressor that appends to `inner`.
    pub fn new(inner: Vec<u8>) -> (w: Writer)
        ensures
            w.wf(),
            w@ == (WriterView {
                out: inner@,
                window: Seq::new(WINDOW_SIZE as nat, |i: int| 0u8),
                hashtab: Seq::new(HASHTAB_SIZE as nat, |i: int| 0usize),
                position: 0,
                look_ahead: 0,
            }),
    {
        let mut window: Vec<u8> = Vec::new();
        let mut i: usize = 0;
        while i < WINDOW_SIZE
            invariant
                i <= WINDOW_SIZE,
                window@.len() == i,
                forall|j: int| 0 <= j < i ==> window@[j] == 0,
            decreases WINDOW_SIZE - i,
        {
            window.push(0);
            i += 1;
        }
        let mut hashtab: Vec<usize> = Vec::new();
        let mut i: usize = 0;
        while i < HASHTAB_SIZE
            invariant
                i <= HASHTAB_SIZE,
                hashtab@.len() == i,
                forall|j: int| 0 <= j < i ==> hashtab@[j] == 0,
            decreases HASHTAB_SIZE - i,
        {
            hashtab.push(0);
            i += 1;
        }
        assert(window@ =~= Seq::new(WINDOW_SIZE as nat, |i: int| 0u8));
        assert(hashtab@ =~= Seq::new(HASHTAB_SIZE as nat, |i: int| 0usize));
        Writer { inner: inner, window: window, hashtab: hashtab, position: 0, look_ahead_bytes: 0 }
    }

    /// The hash of the three bytes at `pos`.  This might go over the data
    /// actually in the window, but as long as the compressor and
    /// decompressor maintain the same window contents, it does not matter.
    fn hash_at(&self, pos: usize) -> (h: usize)
        requires
            self.wf(),
            pos < WINDOW_SIZE,
        ensures
            h == hash_of(self@.window, pos as int),
            h < HASHTAB_SIZE,
    {
        let h1 = self.window[pos] as usize;
        let h2 = self.window[mod_window(pos + 1)] as usize;
        let h3 = self.window[mod_window(pos + 2)] as usize;
        assert((h2 << 8) <= 0xff00) by (bit_vector)
            requires
                h2 < 256,
        ;
        let h = (h1 >> 5) ^ ((h2 << 8) + h3);

        h % HASHTAB_SIZE
    }

    /// The length of the match between the bytes at `match_pos` and those
    /// at `search_pos`.
    fn find_longest_match(&self, match_pos: usize, search_pos: usize) -> (len: usize)
        requires
            self.wf(),
            match_pos < WINDOW_SIZE,
            search_pos < WINDOW_SIZE,
        ensures
            len == if self@.look_ahead > MIN_MATCH_LEN - 1 && match_pos != search_pos {
                matched(
                    self@.window,
                    match_pos as int,
                    search_pos as int,
                    if self@.look_ahead - 1 < MAX_MATCH_LEN {
                        (self@.look_ahead - 1) as nat
                    } else {
                        MAX_MATCH_LEN as nat
                    },
                )
            } else {
                0
            },
    {
        if self.look_ahead_bytes > MIN_MATCH_LEN - 1 && match_pos != search_pos {
            let bound = if self.look_ahead_bytes - 1 < MAX_MATCH_LEN {
                self.look_ahead_bytes - 1
            } else {
                MAX_MATCH_LEN
            };
            let mut match_len: usize = 0;
            while match_len < bound
                invariant
                    self.wf(),
                    match_pos < WINDOW_SIZE,
                    search_pos < WINDOW_SIZE,
                    match_len <= bound <= MAX_MATCH_LEN,
                    match_len == matched(
                        self@.window,
                        match_pos as int,
                        search_pos as int,
                        match_len as nat,
                    ),
                ensures
                    match_len == matched(
                        self@.window,
                        match_pos as int,
                        search_pos as int,
                        bound as nat,
                    ),
                decreases bound - match_len,
            {
                if self.window[mod_window(match_pos + match_len)] != self.window[mod_window(
                    search_pos + match_len,
                )] {
                    proof {
                        lemma_matched(
                            self@.window,
                            match_pos as int,
                            search_pos as int,
                            (match_len + 1) as nat,
                            bound as nat,
                        );
                    }
                    break ;
                }
                match_len += 1;
            }
            match_len
        } else {
            0
        }
    }

    /// Write the next token.
    fn process(&mut self) -> (r: Result<(), Error>)
        requires
            old(self).wf(),
            old(self)@.look_ahead > 0,
        ensures
            r is Ok,
            final(self).wf(),
            final(self)@ == processed(old(self)@),
    {
        proof {
            lemma_token_span(self@);
        }
        let search_pos = self.position;

        let hsh = self.hash_at(search_pos);
        let match_pos = self.hashtab[hsh];
        assert(self@.hashtab[hsh as int] < WINDOW_SIZE);

        let ofs = if match_pos < self.position {
            self.position - match_pos
        } else {
            self.position + (WINDOW_SIZE - match_pos)
        };

        let match_len = self.find_longest_match(match_pos, search_pos);

        if ofs < WINDOW_SIZE - MAX_MATCH_LEN && match_len >= MIN_MATCH_LEN {
            let follow = self.window[mod_window(self.position + match_len)];

            let m1 = (((match_len - MIN_MATCH_LEN) as u8) << 4) | (((ofs >> 8) as u8) & 0x0f);
            let m2 = (ofs & 0xff) as u8;

            self.inner.push(m1);
            self.inner.push(m2);
            self.inner.push(follow);

            self.position = mod_window(self.position + match_len + 1);
            self.look_ahead_bytes -= match_len + 1;
        } else {
            self.inner.push(0);
            self.inner.push(0);
            self.inner.push(self.window[self.position]);
            self.position = mod_window(self.position + 1);
            self.look_ahead_bytes -= 1;
        }
        self.hashtab.set(hsh, search_pos);
        proof {
            assert(self@.out =~= processed(old(self)@).out);
        }
        Ok(())
    }

    /// Give up the compressor for the buffer it wrote to.
    pub fn to_inner(self) -> (inner: Vec<u8>)
        ensures
            inner@ == self@.out,
    {
        self.inner
    }

    /// Take in the bytes of `buf`, writing tokens whenever the look-ahead
    /// space is full, and return the number of bytes taken in.
    pub fn write(&mut self, buf: &[u8]) -> (r: Result<usize, Error>)
        requires
            old(self).wf(),
            old(self)@.look_ahead < LOOK_AHEAD_BYTES,
        ensures
            r == Ok::<usize, Error>(buf@.len() as usize),
            final(self).wf(),
            final(self)@.look_ahead < LOOK_AHEAD_BYTES,
            final(self)@ == written(old(self)@, buf@),
    {
        let mut i: usize = 0;
        while i < buf.len()
            invariant
                i <= buf@.len(),
                self.wf(),
                self@.look_ahead < LOOK_AHEAD_BYTES,
                self@ == written(old(self)@, buf@.take(i as int)),
            decreases buf@.len() - i,
        {
            proof {
                assert(buf@.take(i + 1).drop_last() =~= buf@.take(i as int));
            }
            let at = mod_window(self.position + self.look_ahead_bytes);
            self.window.set(at, buf[i]);
            self.look_ahead_bytes += 1;
            if self.look_ahead_bytes == LOOK_AHEAD_BYTES {
                let _ = self.process();
            }
            proof {
                lemma_token_span(fed(written(old(self)@, buf@.take(i as int)), buf@[i as int]));
            }
            i += 1;
        }
        proof {
            assert(buf@.take(i as int) =~= buf@);
        }
        Ok(buf.len())
    }

    /// Write tokens for all bytes that wait in the window.
    pub fn flush(&mut self) -> (r: Result<(), Error>)
        requires
            old(self).wf(),
        ensures
            r is Ok,
            final(self).wf(),
            final(self)@ == flushed(old(self)@),
            final(self)@.look_ahead == 0,
    {
        while self.look_ahead_bytes > 0
            invariant
                self.wf(),
                flushed(self@) == flushed(old(self)@),
            decreases self.look_ahead_bytes,
        {
            proof {
                lemma_token_span(self@);
            }
            let _ = self.process();
        }
        Ok(())
    }
}

/// The state of a decompressor: the compressed bytes that it has not read,
/// the window and the position in it.
pub struct ReaderView {
    pub input: Seq<u8>,
    pub window: Seq<u8>,
    pub position: usize,
}

/// The length of the match that a token holds.
pub open spec fn token_len(m1: u8) -> usize {
    ((m1 >> 4) as usize + MIN_MATCH_LEN) as usize
}

/// The offset of the match that a token holds.
pub open spec fn token_ofs(m1: u8, m2: u8) -> usize {
    (((m1 as usize) & 0xf) << 8) | (m2 as usize)
}

/// The position at which the match of a token starts.
pub open spec fn match_start(position: usize, ofs: usize) -> int {
    if ofs < position {
        position - ofs
    } else {
        WINDOW_SIZE - (ofs - position)
    }
}

/// The window after `n` bytes were copied, one after the other, from `src`
/// on to `dst` on.
pub open spec fn copied(window: Seq<u8>, src: int, dst: int, n: nat) -> Seq<u8>
    decreases n,
{
    if n == 0 {
        window
    } else {
        copied(window, src, dst, (n - 1) as nat).update(
            wrap(dst + n - 1),
            copied(window, src, dst, (n - 1) as nat)[wrap(src + n - 1)],
        )
    }
}

/// Copying keeps the size of the window.
pub proof fn lemma_copied(window: Seq<u8>, src: int, dst: int, n: nat)
    requires
        window.len() == WINDOW_SIZE,
        src >= 0,
        dst >= 0,
    ensures
        copied(window, src, dst, n).len() == WINDOW_SIZE,
    decreases n,
{
    if n > 0 {
        lemma_copied(window, src, dst, (n - 1) as nat);
    }
}

/// The number of bytes that a token stands for.
pub open spec fn expansion(m1: u8, m2: u8) -> int {
    if token_ofs(m1, m2) > 0 {
        token_len(m1) + 1
    } else {
        1
    }
}

/// The window after the token was expanded at the position.
pub open spec fn expanded(window: Seq<u8>, position: usize, m1: u8, m2: u8, lit: u8) -> Seq<u8> {
    if token_ofs(m1, m2) > 0 {
        copied(
            window,
            match_start(position, token_ofs(m1, m2)),
            position as int,
            token_len(m1) as nat,
        ).update(wrap(position + token_len(m1)), lit)
    } else {
        window.update(wrap(position as int), lit)
    }
}

/// The bytes of the window from `from` on, `n` of them.
pub open spec fn window_bytes(window: Seq<u8>, from: int, n: nat) -> Seq<u8> {
    Seq::new(n, |i: int| window[wrap(from + i)])
}

/// The bytes that the tokens of `input` stand for, from a window and a
/// position in it.  Bytes after the last whole token are left aside.
pub open spec fn decoded(window: Seq<u8>, position: usize, input: Seq<u8>) -> Seq<u8>
    decreases input.len(),
{
    if input.len() < 3 {
        Seq::empty()
    } else {
        window_bytes(
            expanded(window, position, input[0], input[1], input[2]),
            position as int,
            expansion(input[0], input[1]) as nat,
        ) + decoded(
            expanded(window, position, input[0], input[1], input[2]),
            wrap(position + expansion(input[0], input[1])) as usize,
            input.skip(3),
        )
    }
}

/// An LZ77 decompressor.
pub struct Reader<'a> {
    inner: &'a [u8],
    pos: usize,
    window: Vec<u8>,
    position: usize,
    returned: usize,
}

impl<'a> Reader<'a> {
    /// The state of the decompressor.
    pub closed spec fn view(&self) -> ReaderView {
        ReaderView {
            input: self.inner@.skip(self.pos as int),
            window: self.window@,
            position: self.position,
        }
    }

    /// The decompressor is in order.
    pub closed spec fn wf(&self) -> bool {
        &&& self.pos <= self.inner@.len()
        &&& self.window@.len() == WINDOW_SIZE
        &&& self.position < WINDOW_SIZE
        &&& self.returned == self.position
    }

    /// Create a new decompressor for the data in `inner`.
    pub fn new(inner: &'a [u8]) -> (r: Reader<'a>)
        ensures
            r.wf(),
            r@ == (ReaderView {
                input: inner@,
                window: Seq::new(WINDOW_SIZE as nat, |i: int| 0u8),
                position: 0,
            }),
    {
        let mut window: Vec<u8> = Vec::new();
        let mut i: usize = 0;
        while i < WINDOW_SIZE
            invariant
                i <= WINDOW_SIZE,
                window@.len() == i,
                forall|j: int| 0 <= j < i ==> window@[j] == 0,
            decreases WINDOW_SIZE - i,
        {
            window.push(0);
            i += 1;
        }
        assert(window@ =~= Seq::new(WINDOW_SIZE as nat, |i: int| 0u8));
        assert(inner@.skip(0) =~= inner@);
        Reader { inner: inner, pos: 0, window: window, position: 0, returned: 0 }
    }

    /// The next byte of the input, or `None` at its end.
    fn getc(&mut self) -> (r: Result<Option<u8>, Error>)
        requires
            old(self).pos <= old(self).inner@.len(),
        ensures
            final(self).pos <= final(self).inner@.len(),
            final(self).inner == old(self).inner,
            final(self).window == old(self).window,
            final(self).position == old(self).position,
            final(self).returned == old(self).returned,
            old(self).pos < old(self).inner@.len() ==> r == Ok::<Option<u8>, Error>(
                Some(old(self).inner@[old(self).pos as int]),
            ) && final(self).pos == old(self).pos + 1,
            old(self).pos == old(self).inner@.len() ==> r == Ok::<Option<u8>, Error>(None)
                && final(self).pos == old(self).pos,
    {
        if self.pos < self.inner.len() {
            let b = self.inner[self.pos];
            self.pos += 1;
            Ok(Some(b))
        } else {
            Ok(None)
        }
    }

    /// Append the bytes that were expanded and not yet given out to
    /// `output`.
    fn copy_out(&mut self, output: &mut Vec<u8>, Ghost(from): Ghost<int>, Ghost(n): Ghost<nat>)
        requires
            old(self).window@.len() == WINDOW_SIZE,
            old(self).position < WINDOW_SIZE,
            old(self).returned == wrap(from),
            old(self).position == wrap(from + n),
            0 <= from,
            n < WINDOW_SIZE,
        ensures
            final(self).inner == old(self).inner,
            final(self).pos == old(self).pos,
            final(self).window == old(self).window,
            final(self).position == old(self).position,
            final(self).returned == old(self).position,
            final(output)@ == old(output)@ + window_bytes(old(self).window@, from, n),
    {
        let ghost mut done: nat = 0;
        proof {
            assert(old(output)@ + window_bytes(self.window@, from, 0) =~= old(output)@);
        }
        while self.returned != self.position
            invariant
                done <= n < WINDOW_SIZE,
                0 <= from,
                self.inner == old(self).inner,
                self.pos == old(self).pos,
                self.window == old(self).window,
                self.position == old(self).position,
                self.window@.len() == WINDOW_SIZE,
                self.position == wrap(from + n),
                self.returned == wrap(from + done),
                output@ == old(output)@ + window_bytes(self.window@, from, done),
            decreases n - done,
        {
            proof {
                if done == n {
                    assert(false);
                }
                assert(window_bytes(self.window@, from, done + 1) =~= window_bytes(
                    self.window@,
                    from,
                    done,
                ).push(self.window@[wrap(from + done)]));
                lemma_wrap_next(from + done);
            }
            output.push(self.window[self.returned]);
            self.returned = mod_window(self.returned + 1);
            proof {
                done = done + 1;
            }
        }
        proof {
            lemma_wrap_distinct(from, done, n);
            assert(output@ == old(output)@ + window_bytes(self.window@, from, n));
        }
    }

    /// Expand a token at the position.
    fn expand(&mut self, m1: u8, m2: u8, lit: u8)
        requires
            old(self).window@.len() == WINDOW_SIZE,
            old(self).position < WINDOW_SIZE,
        ensures
            final(self).inner == old(self).inner,
            final(self).pos == old(self).pos,
            final(self).returned == old(self).returned,
            final(self).window@.len() == WINDOW_SIZE,
            final(self).window@ == expanded(old(self).window@, old(self).position, m1, m2, lit),
            final(self).position == wrap(old(self).position + expansion(m1, m2)),
            1 <= expansion(m1, m2) <= MAX_MATCH_LEN + 2,
    {
        let m1shift = m1 >> 4;
        assert(m1shift <= 15) by (bit_vector)
            requires
                m1shift == m1 >> 4,
        ;
        let len = (m1shift as usize) + MIN_MATCH_LEN;
        let m1u = m1 as usize;
        let m2u = m2 as usize;
        assert((((m1u & 0xf) << 8) | m2u) < 4096) by (bit_vector)
            requires
                m2u < 256,
        ;
        let ofs = (((m1 as usize) & 0xf) << 8) | (m2 as usize);
        if ofs > 0 {
            let pos = if ofs < self.position {
                self.position - ofs
            } else {
                WINDOW_SIZE - (ofs - self.position)
            };
            let mut i: usize = 0;
            while i < len
                invariant
                    i <= len <= MAX_MATCH_LEN + 1,
                    pos <= WINDOW_SIZE,
                    self.position < WINDOW_SIZE,
                    self.position == old(self).position,
                    self.returned == old(self).returned,
                    self.inner == old(self).inner,
                    self.pos == old(self).pos,
                    self.window@.len() == WINDOW_SIZE,
                    self.window@ == copied(
                        old(self).window@,
                        pos as int,
                        self.position as int,
                        i as nat,
                    ),
                decreases len - i,
            {
                let b = self.window[mod_window(pos + i)];
                self.window.set(mod_window(self.position + i), b);
                i += 1;
            }
            self.window.set(mod_window(self.position + len), lit);
            self.position = mod_window(self.position + len + 1);
        } else {
            self.window.set(mod_window(self.position), lit);
            self.position = mod_window(self.position + 1);
        }
    }

    /// Read the three bytes of the next token.  Gives `None` at the end of
    /// the input, and fails where the input ends within the token.
    fn read_token(&mut self) -> (r: Result<Option<(u8, u8, u8)>, Error>)
        requires
            old(self).wf(),
        ensures
            final(self).wf(),
            final(self)@.window == old(self)@.window,
            final(self)@.position == old(self)@.position,
            old(self)@.input.len() >= 3 ==> r == Ok::<Option<(u8, u8, u8)>, Error>(
                Some((old(self)@.input[0], old(self)@.input[1], old(self)@.input[2])),
            ) && final(self)@.input == old(self)@.input.skip(3),
            old(self)@.input.len() == 0 ==> r == Ok::<Option<(u8, u8, u8)>, Error>(None)
                && final(self)@.input == old(self)@.input,
            0 < old(self)@.input.len() < 3 ==> r == Err::<Option<(u8, u8, u8)>, Error>(
                Error::UnexpectedEof,
            ) && final(self)@.input.len() == 0,
    {
        let ghost here = self@.input;
        let ghost at = self.pos as int;
        proof {
            if here.len() > 0 {
                assert(here[0] == self.inner@[at]);
            }
            if here.len() > 1 {
                assert(here[1] == self.inner@[at + 1]);
            }
            if here.len() > 2 {
                assert(here[2] == self.inner@[at + 2]);
                assert(here.skip(3) =~= self.inner@.skip(at + 3));
            }
        }
        let m1 = match self.getc() {
            Ok(Some(m1)) => m1,
            _ => {
                return Ok(None);
            },
        };
        let mbm2 = self.getc();
        let mblit = self.getc();
        match (mbm2, mblit) {
            (Ok(Some(m2)), Ok(Some(lit))) => Ok(Some((m1, m2, lit))),
            _ => Err(Error::UnexpectedEof),
        }
    }

    /// Expand all tokens of the input and append the bytes that they stand
    /// for to `output`.  Returns the number of bytes appended.  Fails where
    /// the input ends within a token; the bytes of the whole tokens are
    /// appended all the same.
    pub fn read_to_end(&mut self, output: &mut Vec<u8>) -> (r: Result<usize, Error>)
        requires
            old(self).wf(),
        ensures
            final(self).wf(),
            final(output)@ == old(output)@ + decoded(
                old(self)@.window,
                old(self)@.position,
                old(self)@.input,
            ),
            old(self)@.input.len() % 3 == 0 ==> r == Ok::<usize, Error>(
                decoded(old(self)@.window, old(self)@.position, old(self)@.input).len() as usize,
            ),
            old(self)@.input.len() % 3 != 0 ==> r == Err::<usize, Error>(Error::UnexpectedEof),
    {
        let start: usize = output.len();
        let ghost goal = decoded(self@.window, self@.position, self@.input);
        let ghost len0 = self@.input.len();
        let ghost mut done: Seq<u8> = Seq::empty();
        proof {
            assert(old(output)@ + done =~= old(output)@);
            assert(done + goal =~= goal);
        }
        loop
            invariant
                self.wf(),
                goal == decoded(old(self)@.window, old(self)@.position, old(self)@.input),
                len0 == old(self)@.input.len(),
                start == old(output)@.len(),
                output@ == old(output)@ + done,
                self@.input.len() % 3 == len0 % 3,
                done + decoded(self@.window, self@.position, self@.input) == goal,
            decreases self@.input.len(),
        {
            let ghost here = self@;
            match self.read_token() {
                Ok(Some((m1, m2, lit))) => {
                    let ghost from = self.position as int;
                    self.expand(m1, m2, lit);
                    let ghost n = expansion(m1, m2) as nat;
                    let ghost bytes = window_bytes(self.window@, from, n);
                    proof {
                        lemma_decoded_step(here.window, here.position, here.input);
                        assert((done + bytes) + decoded(
                            self@.window,
                            self@.position,
                            self@.input,
                        ) =~= done + (bytes + decoded(
                            self@.window,
                            self@.position,
                            self@.input,
                        )));
                        done = done + bytes;
                        assert(wrap(from) == from);
                    }
                    self.copy_out(output, Ghost(from), Ghost(n));
                    proof {
                        assert(output@ =~= old(output)@ + done);
                    }
                },
                Ok(None) => {
                    proof {
                        assert(done + Seq::<u8>::empty() =~= done);
                    }
                    return Ok(output.len() - start);
                },
                Err(e) => {
                    proof {
                        assert(done + Seq::<u8>::empty() =~= done);
                    }
                    return Err(e);
                },
            }
        }
    }
}

/// The bytes of a stream are those of its first token and those of the
/// tokens after it.
pub proof fn lemma_decoded_step(window: Seq<u8>, position: usize, input: Seq<u8>)
    requires
        input.len() >= 3,
    ensures
        decoded(window, position, input) == window_bytes(
            expanded(window, position, input[0], input[1], input[2]),
            position as int,
            expansion(input[0], input[1]) as nat,
        ) + decoded(
            expanded(window, position, input[0], input[1], input[2]),
            wrap(position + expansion(input[0], input[1])) as usize,
            input.skip(3),
        ),
{
}

/// The position after the next one, reduced to the window.
pub proof fn lemma_wrap_next(x: int)
    requires
        x >= 0,
    ensures
        wrap(wrap(x) + 1) == wrap(x + 1),
{
}

/// Two positions less than a window apart that reduce to the same are the
/// same.
pub proof fn lemma_wrap_distinct(from: int, a: nat, b: nat)
    requires
        from >= 0,
        a <= b < WINDOW_SIZE,
        wrap(from + a) == wrap(from + b),
    ensures
        a == b,
{
}

/// Compress `input` and append the compressed data to `output`.
pub fn compress(input: &[u8], output: Vec<u8>) -> (r: Result<Vec<u8>, Error>)
    ensures
        r matches Ok(out) && out@ == flushed(
            written(
                WriterView {
                    out: output@,
                    window: Seq::new(WINDOW_SIZE as nat, |i: int| 0u8),
                    hashtab: Seq::new(HASHTAB_SIZE as nat, |i: int| 0usize),
                    position: 0,
                    look_ahead: 0,
                },
                input@,
            ),
        ).out,
{
    let mut cw = Writer::new(output);
    let _ = cw.write(input);
    let _ = cw.flush();
    Ok(cw.to_inner())
}

/// Decompress the data in `input` and append the decompressed bytes to
/// `output`.  Fails where the input ends within a token.
pub fn decompress(input: &[u8], output: Vec<u8>) -> (r: Result<Vec<u8>, Error>)
    ensures
        input@.len() % 3 == 0 ==> (r matches Ok(out) && out@ == output@ + decoded(
            Seq::new(WINDOW_SIZE as nat, |i: int| 0u8),
            0,
            input@,
        )),
        input@.len() % 3 != 0 ==> (r matches Err(e) && e == Error::UnexpectedEof),
{
    let mut out = output;
    let mut cr = Reader::new(input);
    match cr.read_to_end(&mut out) {
        Ok(_) => Ok(out),
        Err(e) => Err(e),
    }
}

} // verus!
