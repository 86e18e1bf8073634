//! An LZSS compressor behind an adaptive Huffman coder.
//!
//! The stream of the compressor is a sequence of groups of up to eight
//! items.  A group starts with a byte of flags, one bit per item from the
//! highest bit down: a one marks a literal, which takes one byte, a zero a
//! match, which takes two bytes that hold a length of 2 to 17 and an offset
//! into the window of the last 4096 bytes.  This stream is not written as
//! it is but through an adaptive Huffman compressor.

use vstd::prelude::*;
use crate::error::Error;
use crate::huff::adaptive as nested;
use crate::bits::{byte_bit, extends, extends_bytes, lemma_extends_bytes_push, lemma_extends_bytes_self, lemma_extends_bytes_trans, lemma_extends_self, lemma_extends_trans, lemma_mask_ops, weight};

verus! {

pub const WINDOW_BITS: usize = 12;

pub const LENGTH_BITS: usize = 4;

/// The shortest match.
pub const MIN_MATCH_LEN: usize = 2;

/// The longest match.
pub const MAX_MATCH_LEN: usize = 17;

/// The number of bytes that the compressor looks ahead.
pub const LOOK_AHEAD_BYTES: usize = 17;

/// The size of the window.
pub const WINDOW_SIZE: usize = 4096;

/// The number of entries of the hash table.
pub const HASHTAB_SIZE: usize = 1024;

/// The size of the buffer for a group: a byte of flags and two bytes for
/// each of eight items.
pub const GROUP_BYTES: usize = 17;

/// Reduce a position to the window.
#[inline(always)]
pub fn mod_window(x: usize) -> (r: usize)
    ensures
        r == x % WINDOW_SIZE,
        r < WINDOW_SIZE,
{
    x % WINDOW_SIZE
}

/// The hash of three bytes: the first, moved down by five bits, mixed
/// with the number that the other two make, and reduced to the size of the
/// hash table.
pub open spec fn hash_of_bytes(b1: u8, b2: u8, b3: u8) -> usize {
    (((b1 as usize) >> 5) ^ ((((b2 as usize) << 8) + b3 as usize) as usize)) % HASHTAB_SIZE
}

/// The hash of the three bytes that stand in the window from `pos` on,
/// around its end.
pub open spec fn hash_value(window: Seq<u8>, pos: int) -> usize {
    hash_of_bytes(
        window[pos],
        window[(pos + 1) % (WINDOW_SIZE as int)],
        window[(pos + 2) % (WINDOW_SIZE as int)],
    )
}

/// The number of bytes, from the `at`-th on and `bound` at most, up to
/// which the bytes of the window from `a` on and from `b` on are equal.
pub open spec fn common_length(window: Seq<u8>, a: int, b: int, at: nat, bound: nat) -> nat
    decreases bound - at,
{
    if at >= bound || window[(a + at) % (WINDOW_SIZE as int)] != window[(b + at) % (
    WINDOW_SIZE as int)] {
        at
    } else {
        common_length(window, a, b, at + 1, bound)
    }
}

/// The length of the match that the compressor finds between the bytes at
/// `match_pos` and those at `search_pos`, of which `waiting` wait: none
/// where the positions are the same or no three bytes wait.
pub open spec fn match_length(window: Seq<u8>, match_pos: int, search_pos: int, waiting: nat) -> nat {
    if waiting > MIN_MATCH_LEN && match_pos != search_pos {
        common_length(
            window,
            match_pos,
            search_pos,
            0,
            if waiting < MAX_MATCH_LEN {
                waiting
            } else {
                MAX_MATCH_LEN as nat
            },
        )
    } else {
        0
    }
}

/// A table of `n` copies of `value`.
fn filled(n: usize, value: usize) -> (v: Vec<usize>)
    ensures
        v@.len() == n,
        v@ == Seq::new(n as nat, |j: int| value),
        forall|j: int| 0 <= j < n ==> v@[j] == value,
{
    let mut v: Vec<usize> = Vec::new();
    let mut i: usize = 0;
    while i < n
        invariant
            i <= n,
            v@.len() == i,
            forall|j: int| 0 <= j < i ==> v@[j] == value,
        decreases n - i,
    {
        v.push(value);
        i += 1;
    }
    proof {
        assert(v@ =~= Seq::new(n as nat, |j: int| value));
    }
    v
}

/// A buffer of `n` zero bytes.
fn zero_bytes(n: usize) -> (v: Vec<u8>)
    ensures
        v@.len() == n,
        v@ == Seq::new(n as nat, |j: int| 0u8),
{
    let mut v: Vec<u8> = Vec::new();
    let mut i: usize = 0;
    while i < n
        invariant
            i <= n,
            v@.len() == i,
            forall|j: int| 0 <= j < i ==> v@[j] == 0,
        decreases n - i,
    {
        v.push(0);
        i += 1;
    }
    proof {
        assert(v@ =~= Seq::new(n as nat, |j: int| 0u8));
    }
    v
}

/// What a compressor has come to: the Huffman compressor below it, the
/// window, the hash table, the position, the number of bytes that wait, and
/// the group that is being filled.
pub struct WriterView {
    pub coder: nested::CoderView,
    pub window: Seq<u8>,
    pub hashtab: Seq<usize>,
    pub position: usize,
    pub waiting: usize,
    pub flags: u8,
    pub count: usize,
    pub data: Seq<u8>,
    pub len: usize,
}

/// The compressor that starts behind the bytes `output`.
pub open spec fn start_view(output: Seq<u8>) -> WriterView {
    WriterView {
        coder: nested::CoderView {
            bits: crate::bits::bytes_to_bits(output),
            tree: nested::first_shape(),
        },
        window: Seq::new(WINDOW_SIZE as nat, |j: int| 0u8),
        hashtab: Seq::new(HASHTAB_SIZE as nat, |j: int| 0usize),
        position: 0,
        waiting: 0,
        flags: 0,
        count: 0,
        data: Seq::new(GROUP_BYTES as nat, |j: int| 0u8),
        len: 1,
    }
}

/// The compressor after the group that is being filled was written: its
/// flags, moved up to the highest bits, and the bytes of its items go to
/// the Huffman compressor.  `None` where that cannot code them.
pub open spec fn group_flushed(v: WriterView) -> Option<WriterView> {
    if v.count > 0 {
        let flags = if v.count < 8 {
            v.flags << ((8 - v.count) as u8)
        } else {
            v.flags
        };
        match nested::written(v.coder, v.data.update(0, flags).subrange(0, v.len as int)) {
            None => None,
            Some(c) => Some(
                WriterView {
                    coder: c,
                    flags: 0,
                    count: 0,
                    len: 1,
                    data: v.data.update(0, flags),
                    ..v
                },
            ),
        }
    } else {
        Some(v)
    }
}

/// The compressor with room for an item in its group: a full group is
/// written.
pub open spec fn with_room(v: WriterView) -> Option<WriterView> {
    if v.count == 8 {
        group_flushed(v)
    } else {
        Some(v)
    }
}

/// The compressor after the literal `lit` was added to the group.
pub open spec fn literal_put(v: WriterView, lit: u8) -> Option<WriterView> {
    match with_room(v) {
        None => None,
        Some(w) => Some(
            WriterView {
                count: (w.count + 1) as usize,
                flags: (w.flags << 1) | 1,
                data: w.data.update(w.len as int, lit),
                len: (w.len + 1) as usize,
                ..w
            },
        ),
    }
}

/// The compressor after a match was added to the group, whose length and
/// offset are coded in `m1` and `m2`.
pub open spec fn match_put(v: WriterView, m1: u8, m2: u8) -> Option<WriterView> {
    match with_room(v) {
        None => None,
        Some(w) => Some(
            WriterView {
                count: (w.count + 1) as usize,
                flags: w.flags << 1,
                data: w.data.update(w.len as int, m1).update(w.len + 1, m2),
                len: (w.len + 2) as usize,
                ..w
            },
        ),
    }
}

/// The distance from `match_pos` to `position`, around the window.
pub open spec fn distance(match_pos: int, position: int) -> int {
    if match_pos < position {
        position - match_pos
    } else {
        position + (WINDOW_SIZE - match_pos)
    }
}

/// The first byte of a match: its length in the high four bits, and the
/// high four bits of its offset.
pub open spec fn first_byte(len: usize, ofs: usize) -> u8 {
    (((len - MIN_MATCH_LEN) as u8) << 4) | (((ofs >> 8) as u8) & 0x0f)
}

/// The second byte of a match: the low eight bits of its offset.
pub open spec fn second_byte(ofs: usize) -> u8 {
    (ofs & 0xff) as u8
}

/// The compressor after the next bytes that wait were compressed: as a
/// match where the hash table leads to one, else the first of them as a
/// literal.
pub open spec fn processed(v: WriterView) -> Option<WriterView> {
    let hsh = hash_value(v.window, v.position as int);
    let match_pos = v.hashtab[hsh as int];
    let ofs = distance(match_pos as int, v.position as int);
    let len = match_length(v.window, match_pos as int, v.position as int, v.waiting as nat);
    if ofs < WINDOW_SIZE - MAX_MATCH_LEN && len >= MIN_MATCH_LEN {
        match match_put(v, first_byte(len as usize, ofs as usize), second_byte(ofs as usize)) {
            None => None,
            Some(w) => Some(
                WriterView {
                    position: ((v.position + len) % (WINDOW_SIZE as int)) as usize,
                    waiting: (v.waiting - len) as usize,
                    hashtab: v.hashtab.update(hsh as int, v.position),
                    ..w
                },
            ),
        }
    } else {
        match literal_put(v, v.window[v.position as int]) {
            None => None,
            Some(w) => Some(
                WriterView {
                    position: ((v.position + 1) % (WINDOW_SIZE as int)) as usize,
                    waiting: (v.waiting - 1) as usize,
                    hashtab: v.hashtab.update(hsh as int, v.position),
                    ..w
                },
            ),
        }
    }
}

/// The compressor after the byte `b` was put behind the bytes that wait.
pub open spec fn byte_taken(v: WriterView, b: u8) -> WriterView {
    WriterView {
        window: v.window.update((v.position + v.waiting) % (WINDOW_SIZE as int), b),
        waiting: (v.waiting + 1) as usize,
        ..v
    }
}

/// The compressor after the bytes were taken in: each is put behind the
/// bytes that wait, and whenever the look-ahead space is full, the next of
/// them are compressed.
pub open spec fn taken(v: WriterView, bytes: Seq<u8>) -> Option<WriterView>
    decreases bytes.len(), v.waiting,
{
    if bytes.len() == 0 {
        Some(v)
    } else if v.waiting < LOOK_AHEAD_BYTES {
        if v.waiting + 1 == LOOK_AHEAD_BYTES {
            match processed(byte_taken(v, bytes[0])) {
                None => None,
                Some(w) => taken(w, bytes.skip(1)),
            }
        } else {
            taken(byte_taken(v, bytes[0]), bytes.skip(1))
        }
    } else {
        match processed(v) {
            None => None,
            Some(w) => if w.waiting < v.waiting {
                taken(w, bytes)
            } else {
                None
            },
        }
    }
}

/// The compressor after all bytes that wait were compressed.
pub open spec fn all_processed(v: WriterView) -> Option<WriterView>
    decreases v.waiting,
{
    if v.waiting == 0 {
        Some(v)
    } else {
        match processed(v) {
            None => None,
            Some(w) => if w.waiting < v.waiting {
                all_processed(w)
            } else {
                None
            },
        }
    }
}

/// The bytes of the stream that is ended after the compressor came to `v`:
/// the bytes that wait are compressed, the last group is written, and the
/// stream of the Huffman compressor is ended.
pub open spec fn finished(v: WriterView) -> Option<Seq<u8>> {
    match all_processed(v) {
        None => None,
        Some(w) => match group_flushed(w) {
            None => None,
            Some(x) => match nested::ended(x.coder) {
                None => None,
                Some(bits) => Some(crate::bits::pack_bits(bits)),
            },
        },
    }
}

/// The bytes that compressing `input` behind the bytes `output` gives;
/// `None` where the Huffman tree gets into a shape that cannot be coded.
pub open spec fn compressed(output: Seq<u8>, input: Seq<u8>) -> Option<Seq<u8>> {
    match taken(start_view(output), input) {
        None => None,
        Some(v) => finished(v),
    }
}

/// Writer for LZSS compressed streams.
pub struct Writer {
    inner: nested::Writer,
    window: Vec<u8>,
    hashtab: Vec<usize>,
    position: usize,
    look_ahead_bytes: usize,
    out_flags: u8,
    out_count: usize,
    out_data: Vec<u8>,
    out_len: usize,
}

impl View for Writer {
    type V = WriterView;

    closed spec fn view(&self) -> WriterView {
        WriterView {
            coder: self.inner.view(),
            window: self.window@,
            hashtab: self.hashtab@,
            position: self.position,
            waiting: self.look_ahead_bytes,
            flags: self.out_flags,
            count: self.out_count,
            data: self.out_data@,
            len: self.out_len,
        }
    }
}

impl Writer {
    /// The bits of the compressed stream as written so far.
    pub closed spec fn bits(&self) -> Seq<bool> {
        self.inner.bits()
    }

    /// The bytes of the compressed stream that have reached the buffer.
    pub closed spec fn bytes(&self) -> Seq<u8> {
        self.inner.bytes()
    }

    /// The number of bytes that were taken in and wait to be compressed.
    pub closed spec fn waiting(&self) -> int {
        self.look_ahead_bytes as int
    }

    /// The compressor is in order.
    pub closed spec fn wf(&self) -> bool {
        &&& self.inner.wf()
        &&& self.window@.len() == WINDOW_SIZE
        &&& self.hashtab@.len() == HASHTAB_SIZE
        &&& forall|i: int| 0 <= i < HASHTAB_SIZE ==> #[trigger] self.hashtab@[i] < WINDOW_SIZE
        &&& self.position < WINDOW_SIZE
        &&& self.look_ahead_bytes <= LOOK_AHEAD_BYTES
        &&& self.out_data@.len() == GROUP_BYTES
        &&& self.out_count <= 8
        &&& 1 <= self.out_len <= 1 + 2 * self.out_count
    }

    /// Create a new LZSS compressor that appends to `inner`.
    pub fn new(inner: Vec<u8>) -> (w: Writer)
        ensures
            w.wf(),
            w@ == start_view(inner@),
            w.bytes() == inner@,
            w.waiting() == 0,
    {
        Writer {
            inner: nested::Writer::new(inner),
            window: zero_bytes(WINDOW_SIZE),
            hashtab: filled(HASHTAB_SIZE, 0),
            position: 0,
            look_ahead_bytes: 0,
            out_flags: 0,
            out_count: 0,
            out_data: zero_bytes(GROUP_BYTES),
            out_len: 1,
        }
    }

    /// Write the group that is being filled: its flags, moved up to the
    /// highest bits, and the bytes of its items.
    fn emit_flush(&mut self) -> (r: Result<(), Error>)
        requires
            old(self).wf(),
        ensures
            final(self).wf(),
            match group_flushed(old(self)@) {
                Some(v) => r is Ok && final(self)@ == v,
                None => r == Err::<(), Error>(Error::CodeTooLong),
            },
            r is Ok ==> final(self).out_count == 0,
            final(self).window == old(self).window,
            final(self).hashtab == old(self).hashtab,
            final(self).position == old(self).position,
            final(self).look_ahead_bytes == old(self).look_ahead_bytes,
            r matches Err(e) ==> e == Error::CodeTooLong,
            extends(final(self).bits(), old(self).bits()),
    {
        proof {
            lemma_extends_self(self.bits());
        }
        if self.out_count > 0 {
            if self.out_count < 8 {
                self.out_flags = self.out_flags << ((8 - self.out_count) as u8);
            }
            self.out_data.set(0, self.out_flags);
            let data = vstd::slice::slice_subrange(self.out_data.as_slice(), 0, self.out_len);
            match self.inner.write(data) {
                Ok(_) => {},
                Err(e) => {
                    return Err(e);
                },
            }

            self.out_flags = 0;
            self.out_count = 0;
            self.out_len = 1;
        }
        Ok(())
    }

    /// Add the literal `lit` to the group.
    fn emit_lit(&mut self, lit: u8) -> (r: Result<(), Error>)
        requires
            old(self).wf(),
        ensures
            final(self).wf(),
            match literal_put(old(self)@, lit) {
                Some(v) => r is Ok && final(self)@ == v,
                None => r == Err::<(), Error>(Error::CodeTooLong),
            },
            final(self).window == old(self).window,
            final(self).hashtab == old(self).hashtab,
            final(self).position == old(self).position,
            final(self).look_ahead_bytes == old(self).look_ahead_bytes,
            r matches Err(e) ==> e == Error::CodeTooLong,
            extends(final(self).bits(), old(self).bits()),
    {
        proof {
            lemma_extends_self(self.bits());
        }
        if self.out_count == 8 {
            match self.emit_flush() {
                Ok(()) => {},
                Err(e) => {
                    return Err(e);
                },
            }
        }
        self.out_count += 1;
        self.out_flags = (self.out_flags << 1) | 1;
        self.out_data.set(self.out_len, lit);
        self.out_len += 1;
        Ok(())
    }

    /// Add a match to the group, whose length and offset are coded in `m1` and `m2`.
    pub fn emit_match(&mut self, m1: u8, m2: u8) -> (r: Result<(), Error>)
        requires
            old(self).wf(),
        ensures
            final(self).wf(),
            match match_put(old(self)@, m1, m2) {
                Some(v) => r is Ok && final(self)@ == v,
                None => r == Err::<(), Error>(Error::CodeTooLong),
            },
            final(self).waiting() == old(self).waiting(),
            r matches Err(e) ==> e == Error::CodeTooLong,
            extends(final(self).bits(), old(self).bits()),
    {
        self.put_match(m1, m2)
    }

    /// Add a match to the group, as `emit_match` does.
    fn put_match(&mut self, m1: u8, m2: u8) -> (r: Result<(), Error>)
        requires
            old(self).wf(),
        ensures
            final(self).wf(),
            match match_put(old(self)@, m1, m2) {
                Some(v) => r is Ok && final(self)@ == v,
                None => r == Err::<(), Error>(Error::CodeTooLong),
            },
            final(self).window == old(self).window,
            final(self).hashtab == old(self).hashtab,
            final(self).position == old(self).position,
            final(self).look_ahead_bytes == old(self).look_ahead_bytes,
            r matches Err(e) ==> e == Error::CodeTooLong,
            extends(final(self).bits(), old(self).bits()),
    {
        proof {
            lemma_extends_self(self.bits());
        }
        if self.out_count == 8 {
            match self.emit_flush() {
                Ok(()) => {},
                Err(e) => {
                    return Err(e);
                },
            }
        }
        self.out_count += 1;
        self.out_flags = self.out_flags << 1;
        self.out_data.set(self.out_len, m1);
        self.out_data.set(self.out_len + 1, m2);
        self.out_len += 2;
        Ok(())
    }

    /// The hash of the three bytes at `pos`.  This might go over the data
    /// actually in the window, but as long as the compressor and
    /// decompressor maintain the same window contents, it does not matter.
    fn hash_at(&self, pos: usize) -> (h: usize)
        requires
            self.wf(),
            pos < WINDOW_SIZE,
        ensures
            h < HASHTAB_SIZE,
            h == hash_value(self.window@, pos as int),
    {
        let h1 = self.window[pos] as usize;
        let h2 = self.window[mod_window(pos + 1)] as usize;
        let h3 = self.window[mod_window(pos + 2)] as usize;
        assert((h2 << 8) <= 0xff00) by (bit_vector)
            requires
                h2 < 256,
        ;
        let h = (h1 >> 5) ^ ((h2 << 8) + h3);

        h % HASHTAB_SIZE
    }

    /// The length of the match between the bytes at `match_pos` and those
    /// at `search_pos`.
    fn find_longest_match(&self, match_pos: usize, search_pos: usize) -> (len: usize)
        requires
            self.wf(),
            match_pos < WINDOW_SIZE,
            search_pos < WINDOW_SIZE,
        ensures
            len <= self.look_ahead_bytes,
            len <= MAX_MATCH_LEN,
            len == match_length(
                self.window@,
                match_pos as int,
                search_pos as int,
                self.look_ahead_bytes as nat,
            ),
    {
        if self.look_ahead_bytes > MIN_MATCH_LEN && match_pos != search_pos {
            let bound = if self.look_ahead_bytes < MAX_MATCH_LEN {
                self.look_ahead_bytes
            } else {
                MAX_MATCH_LEN
            };
            let ghost goal = common_length(
                self.window@,
                match_pos as int,
                search_pos as int,
                0,
                bound as nat,
            );
            let mut match_len: usize = 0;
            while match_len < bound
                invariant
                    self.wf(),
                    match_pos < WINDOW_SIZE,
                    search_pos < WINDOW_SIZE,
                    match_len <= bound <= MAX_MATCH_LEN,
                    goal == common_length(
                        self.window@,
                        match_pos as int,
                        search_pos as int,
                        match_len as nat,
                        bound as nat,
                    ),
                ensures
                    match_len <= bound,
                    match_len == goal,
                decreases bound - match_len,
            {
                if self.window[mod_window(match_pos + match_len)] != self.window[mod_window(
                    search_pos + match_len,
                )] {
                    break ;
                }
                match_len += 1;
            }
            match_len
        } else {
            0
        }
    }

    /// Compress the next bytes that wait: as a match where the hash table
    /// leads to one, else the first of them as a literal.
    fn process(&mut self) -> (r: Result<(), Error>)
        requires
            old(self).wf(),
            old(self).look_ahead_bytes > 0,
        ensures
            final(self).wf(),
            match processed(old(self)@) {
                Some(v) => r is Ok && final(self)@ == v,
                None => r == Err::<(), Error>(Error::CodeTooLong),
            },
            r is Ok ==> final(self).look_ahead_bytes < old(self).look_ahead_bytes,
            r matches Err(e) ==> e == Error::CodeTooLong,
            extends(final(self).bits(), old(self).bits()),
    {
        let search_pos = self.position;

        let hsh = self.hash_at(search_pos);
        let match_pos = self.hashtab[hsh];
        assert(self.hashtab@[hsh as int] < WINDOW_SIZE);

        let ofs = if match_pos < self.position {
            self.position - match_pos
        } else {
            self.position + (WINDOW_SIZE - match_pos)
        };

        let match_len = self.find_longest_match(match_pos, search_pos);

        if ofs < WINDOW_SIZE - MAX_MATCH_LEN && match_len >= MIN_MATCH_LEN {
            let m1 = (((match_len - MIN_MATCH_LEN) as u8) << 4) | (((ofs >> 8) as u8) & 0x0f);
            let m2 = (ofs & 0xff) as u8;

            match self.put_match(m1, m2) {
                Ok(()) => {},
                Err(e) => {
                    return Err(e);
                },
            }

            self.position = mod_window(self.position + match_len);
            self.look_ahead_bytes -= match_len;
        } else {
            let lit = self.window[self.position];
            match self.emit_lit(lit) {
                Ok(()) => {},
                Err(e) => {
                    return Err(e);
                },
            }

            self.position = mod_window(self.position + 1);
            self.look_ahead_bytes -= 1;
        }
        let ghost before = self.hashtab@;
        self.hashtab.set(hsh, search_pos);
        proof {
            assert forall|i: int| 0 <= i < HASHTAB_SIZE implies #[trigger] self.hashtab@[i]
                < WINDOW_SIZE by {
                assert(before[i] < WINDOW_SIZE);
            }
        }
        Ok(())
    }

    /// Give up the compressor for the buffer it wrote to.
    pub fn into_inner(self) -> (inner: Vec<u8>)
        ensures
            inner@ == self.bytes(),
    {
        self.inner.into_inner()
    }

    /// Take in the bytes of `buf`, compressing whenever the look-ahead space
    /// is full, and return the number of bytes taken in.  Fails where the
    /// Huffman tree gets into a shape that cannot be coded.
    pub fn write(&mut self, buf: &[u8]) -> (r: Result<usize, Error>)
        requires
            old(self).wf(),
        ensures
            final(self).wf(),
            match taken(old(self)@, buf@) {
                Some(v) => r == Ok::<usize, Error>(buf@.len() as usize) && final(self)@ == v,
                None => r == Err::<usize, Error>(Error::CodeTooLong),
            },
            r matches Ok(n) ==> n == buf@.len(),
            r matches Err(e) ==> e == Error::CodeTooLong,
            extends(final(self).bits(), old(self).bits()),
    {
        let ghost start = self.bits();
        let ghost goal = taken(self@, buf@);
        proof {
            lemma_extends_self(start);
            assert(buf@.skip(0) =~= buf@);
        }
        let mut written: usize = 0;
        while written < buf.len()
            invariant
                written <= buf@.len(),
                self.wf(),
                start == old(self).bits(),
                goal == taken(old(self)@, buf@),
                goal == taken(self@, buf@.skip(written as int)),
                extends(self.bits(), start),
            decreases buf@.len() - written, self.look_ahead_bytes,
        {
            let ghost here = self@;
            let ghost rest = buf@.skip(written as int);
            proof {
                assert(rest[0] == buf@[written as int]);
                assert(rest.skip(1) =~= buf@.skip(written + 1));
            }
            if self.look_ahead_bytes < LOOK_AHEAD_BYTES {
                let at = mod_window(self.position + self.look_ahead_bytes);
                self.window.set(at, buf[written]);
                self.look_ahead_bytes += 1;
                written += 1;
                proof {
                    assert(self@ == byte_taken(here, rest[0]));
                }
            }
            if self.look_ahead_bytes == LOOK_AHEAD_BYTES {
                let ghost mid = self.bits();
                let r = self.process();
                proof {
                    lemma_extends_trans(self.bits(), mid, start);
                }
                match r {
                    Ok(()) => {},
                    Err(e) => {
                        return Err(e);
                    },
                }
            }
        }
        Ok(written)
    }

    /// Compress all bytes that wait, write the last group, and end the
    /// stream of the Huffman compressor.
    pub fn flush(&mut self) -> (r: Result<(), Error>)
        requires
            old(self).wf(),
        ensures
            final(self).wf(),
            match finished(old(self)@) {
                Some(bytes) => r is Ok && final(self).bytes() == bytes,
                None => r == Err::<(), Error>(Error::CodeTooLong),
            },
            r is Ok ==> final(self).waiting() == 0,
            r matches Err(e) ==> e == Error::CodeTooLong,
    {
        let ghost goal = all_processed(self@);
        while self.look_ahead_bytes > 0
            invariant
                self.wf(),
                goal == all_processed(old(self)@),
                goal == all_processed(self@),
            decreases self.look_ahead_bytes,
        {
            match self.process() {
                Ok(()) => {},
                Err(e) => {
                    return Err(e);
                },
            }
        }
        match self.emit_flush() {
            Ok(()) => {},
            Err(e) => {
                return Err(e);
            },
        }
        self.inner.flush()
    }
}

/// What a decompressor has come to: the Huffman decompressor below it,
/// the window, the position, the position up to which the bytes were given
/// out, and whether the end of the stream was found.
pub struct ReaderView {
    pub coder: nested::ReaderView,
    pub window: Seq<u8>,
    pub position: usize,
    pub returned: usize,
    pub eof: bool,
}

/// The decompressor that starts on `input`.
pub open spec fn start_reader(input: Seq<u8>) -> ReaderView {
    ReaderView {
        coder: nested::ReaderView {
            tree: nested::first_shape(),
            src: crate::bitfile::BitSource { bits: crate::bits::bytes_to_bits(input), extra: 0 },
            eof: false,
        },
        window: Seq::new(WINDOW_SIZE as nat, |j: int| 0u8),
        position: 0,
        returned: 0,
        eof: false,
    }
}

/// The window after `n` bytes were copied, byte by byte, from `from` on to
/// `to` on, around its end.
pub open spec fn copied(window: Seq<u8>, from: int, to: int, n: nat) -> Seq<u8>
    decreases n,
{
    if n == 0 {
        window
    } else {
        copied(window, from, to, (n - 1) as nat).update(
            (to + (n - 1)) % (WINDOW_SIZE as int),
            copied(window, from, to, (n - 1) as nat)[(from + (n - 1)) % (WINDOW_SIZE as int)],
        )
    }
}

/// The length of the match whose first byte is `m1`.
pub open spec fn length_in(m1: u8) -> int {
    (m1 >> 4) as int + MIN_MATCH_LEN
}

/// The offset of the match whose bytes are `m1` and `m2`.
pub open spec fn offset_in(m1: u8, m2: u8) -> usize {
    (((m1 as usize) & 0xf) << 8) | (m2 as usize)
}

/// The place from which a match with the offset `ofs` is copied.
pub open spec fn copy_from(ofs: int, position: int) -> int {
    if ofs < position {
        position - ofs
    } else {
        WINDOW_SIZE - (ofs - position)
    }
}

/// The decompressor after the match with the bytes `m1` and `m2` was
/// expanded.
pub open spec fn match_expanded(v: ReaderView, m1: u8, m2: u8) -> ReaderView {
    ReaderView {
        window: copied(
            v.window,
            copy_from(offset_in(m1, m2) as int, v.position as int),
            v.position as int,
            length_in(m1) as nat,
        ),
        position: ((v.position + length_in(m1)) % (WINDOW_SIZE as int)) as usize,
        ..v
    }
}

/// The decompressor after the item with the flag `i` of `token` and the
/// items behind it were expanded.  A match is two bytes, a literal one. The
/// group ends where the stream ends at a match.  Fails where it ends at a
/// literal or within a match.
pub open spec fn group_from(v: ReaderView, token: u8, i: int) -> Result<ReaderView, Error>
    decreases 8 - i,
{
    if i >= 8 || i < 0 {
        Ok(v)
    } else if byte_bit(token, i) {
        match nested::byte_read(v.coder) {
            Err(e) => Err(e),
            Ok((None, c)) => Err(Error::UnexpectedEof),
            Ok((Some(b), c)) => group_from(
                ReaderView {
                    coder: c,
                    window: v.window.update(v.position as int, b),
                    position: ((v.position + 1) % (WINDOW_SIZE as int)) as usize,
                    ..v
                },
                token,
                i + 1,
            ),
        }
    } else {
        match nested::byte_read(v.coder) {
            Err(e) => Err(e),
            Ok((first, c)) => match nested::byte_read(c) {
                Err(e) => Err(e),
                Ok((second, d)) => match (first, second) {
                    (None, None) => Ok(ReaderView { coder: d, eof: true, ..v }),
                    (Some(m1), Some(m2)) => group_from(
                        match_expanded(ReaderView { coder: d, ..v }, m1, m2),
                        token,
                        i + 1,
                    ),
                    _ => Err(Error::UnexpectedEof),
                },
            },
        }
    }
}

/// The number of bytes from `returned` up to `position`, around the end of
/// the window.
pub open spec fn not_given(returned: int, position: int) -> int {
    if returned <= position {
        position - returned
    } else {
        WINDOW_SIZE - returned + position
    }
}

/// The bytes of the window from `returned` up to `position`, around its
/// end.
pub open spec fn given_out(window: Seq<u8>, returned: int, position: int) -> Seq<u8>
    decreases not_given(returned, position),
{
    if returned == position || returned < 0 || returned >= WINDOW_SIZE || position < 0 || position
        >= WINDOW_SIZE {
        Seq::empty()
    } else {
        seq![window[returned]] + given_out(
            window,
            (returned + 1) % (WINDOW_SIZE as int),
            position,
        )
    }
}

/// A result with `done` put before the bytes of a success.
pub open spec fn behind(done: Seq<u8>, r: Result<Seq<u8>, Error>) -> Result<Seq<u8>, Error> {
    match r {
        Ok(s) => Ok(done + s),
        Err(e) => Err(e),
    }
}

/// The bytes for which the groups in the input stand, up to the end of the
/// stream.
#[verifier::opaque]
pub open spec fn expanded(v: ReaderView) -> Result<Seq<u8>, Error>
    decreases v.coder.src.remaining(),
{
    match nested::byte_read(v.coder) {
        Err(e) => Err(e),
        Ok((None, c)) => Ok(Seq::empty()),
        Ok((Some(token), c)) => match group_from(ReaderView { coder: c, ..v }, token, 0) {
            Err(e) => Err(e),
            Ok(w) => if w.coder.src.remaining() < v.coder.src.remaining() {
                behind(
                    given_out(w.window, w.returned as int, w.position as int),
                    expanded(ReaderView { returned: w.position, ..w }),
                )
            } else {
                Err(Error::UnexpectedEof)
            },
        },
    }
}

/// What the groups stand for, by what the first byte of the input gives.
pub proof fn lemma_expanded(v: ReaderView)
    ensures
        expanded(v) == match nested::byte_read(v.coder) {
            Err(e) => Err::<Seq<u8>, Error>(e),
            Ok((None, c)) => Ok(Seq::empty()),
            Ok((Some(token), c)) => match group_from(ReaderView { coder: c, ..v }, token, 0) {
                Err(e) => Err(e),
                Ok(w) => if w.coder.src.remaining() < v.coder.src.remaining() {
                    behind(
                        given_out(w.window, w.returned as int, w.position as int),
                        expanded(ReaderView { returned: w.position, ..w }),
                    )
                } else {
                    Err(Error::UnexpectedEof)
                },
            },
        },
{
    reveal(expanded);
}

/// What decompressing `input` gives.
pub open spec fn decoded(input: Seq<u8>) -> Result<Seq<u8>, Error> {
    expanded(start_reader(input))
}

/// Reader for LZSS compressed streams.
pub struct Reader<'a> {
    inner: nested::Reader<'a>,
    window: Vec<u8>,
    position: usize,
    returned: usize,
    eof: bool,
}

impl<'a> View for Reader<'a> {
    type V = ReaderView;

    closed spec fn view(&self) -> ReaderView {
        ReaderView {
            coder: self.inner@,
            window: self.window@,
            position: self.position,
            returned: self.returned,
            eof: self.eof,
        }
    }
}

impl<'a> Reader<'a> {
    /// The number of bits of the input that were not read.
    pub open spec fn remaining(&self) -> nat {
        self@.coder.src.remaining()
    }

    /// Whether the end of the stream was found.
    pub open spec fn at_eof(&self) -> bool {
        self@.eof
    }

    /// The decompressor is in order.
    pub closed spec fn wf(&self) -> bool {
        &&& self.inner.wf()
        &&& self.window@.len() == WINDOW_SIZE
        &&& self.position < WINDOW_SIZE
        &&& self.returned < WINDOW_SIZE
    }

    /// Create a new LZSS decompressor for the data in `inner`.
    pub fn new(inner: &'a [u8]) -> (r: Reader<'a>)
        ensures
            r.wf(),
            r@ == start_reader(inner@),
            !r.at_eof(),
            r.remaining() == 8 * inner@.len(),
    {
        Reader {
            inner: nested::Reader::new(inner),
            window: zero_bytes(WINDOW_SIZE),
            position: 0,
            returned: 0,
            eof: false,
        }
    }

    /// Append the bytes that were expanded and not yet given out to
    /// `output`.
    fn copy_out(&mut self, output: &mut Vec<u8>)
        requires
            old(self).wf(),
        ensures
            final(self).wf(),
            final(output)@ == old(output)@ + given_out(
                old(self)@.window,
                old(self)@.returned as int,
                old(self)@.position as int,
            ),
            final(self)@ == (ReaderView { returned: old(self)@.position, ..old(self)@ }),
            final(self).eof == old(self).eof,
            final(self).inner == old(self).inner,
            extends_bytes(final(output)@, old(output)@),
    {
        let ghost goal = given_out(self.window@, self.returned as int, self.position as int);
        let ghost mut done: Seq<u8> = Seq::empty();
        proof {
            lemma_extends_bytes_self(output@);
            assert(output@ + done =~= output@);
            assert(done + goal =~= goal);
        }
        while self.returned != self.position
            invariant
                self.wf(),
                self.eof == old(self).eof,
                self.inner == old(self).inner,
                self.window == old(self).window,
                self.position == old(self).position,
                output@ == old(output)@ + done,
                goal == done + given_out(
                    self.window@,
                    self.returned as int,
                    self.position as int,
                ),
                extends_bytes(output@, old(output)@),
            decreases
                    if self.returned <= self.position {
                        self.position - self.returned
                    } else {
                        WINDOW_SIZE - self.returned + self.position
                    },
        {
            let ghost before = output@;
            let ghost b = self.window@[self.returned as int];
            let ghost rest = given_out(
                self.window@,
                (self.returned + 1) % (WINDOW_SIZE as int),
                self.position as int,
            );
            output.push(self.window[self.returned]);
            proof {
                lemma_extends_bytes_push(before, self.window@[self.returned as int], old(output)@);
                assert(output@ =~= old(output)@ + (done + seq![b]));
                assert((done + seq![b]) + rest =~= done + (seq![b] + rest));
                done = done + seq![b];
            }
            self.returned = mod_window(self.returned + 1);
        }
        proof {
            assert(done + Seq::<u8>::empty() =~= done);
        }
    }

    /// Expand a group of eight literals or matches.  `token` holds the
    /// flags.
    fn process_group(&mut self, token: u8) -> (r: Result<(), Error>)
        requires
            old(self).wf(),
        ensures
            final(self).wf(),
            match group_from(old(self)@, token, 0) {
                Ok(v) => r is Ok && final(self)@ == v,
                Err(e) => r == Err::<(), Error>(e),
            },
            final(self).remaining() <= old(self).remaining(),
            r matches Err(e) ==> e == Error::UnexpectedEof || e == Error::CodeTooLong,
    {
        let ghost goal = group_from(self@, token, 0);
        let mut mask: u8 = 0x80;
        let mut i: usize = 0;
        while i < 8
            invariant
                i <= 8,
                i < 8 ==> mask == weight(i as u8),
                self.wf(),
                goal == group_from(old(self)@, token, 0),
                goal == group_from(self@, token, i as int),
                self.remaining() <= old(self).remaining(),
            decreases 8 - i,
        {
            proof {
                lemma_mask_ops(token, i as u8);
            }
            if token & mask == 0 {
                // A zero bit marks a match: two bytes that hold a length
                // of four bits and an offset of twelve.
                let mbm1 = match self.inner.read_byte() {
                    Ok(b) => b,
                    Err(e) => {
                        return Err(e);
                    },
                };
                let mbm2 = match self.inner.read_byte() {
                    Ok(b) => b,
                    Err(e) => {
                        return Err(e);
                    },
                };
                match (mbm1, mbm2) {
                    (None, None) => {
                        self.eof = true;
                        return Ok(());
                    },
                    (Some(m1), Some(m2)) => {
                        let high = m1 >> 4;
                        assert(high <= 15) by (bit_vector)
                            requires
                                high == m1 >> 4,
                        ;
                        let len = (high as usize) + MIN_MATCH_LEN;
                        let m1u = m1 as usize;
                        let m2u = m2 as usize;
                        assert((((m1u & 0xf) << 8) | m2u) < 4096) by (bit_vector)
                            requires
                                m2u < 256,
                        ;
                        let ofs = (((m1 as usize) & 0xf) << 8) | (m2 as usize);
                        let pos = if ofs < self.position {
                            self.position - ofs
                        } else {
                            WINDOW_SIZE - (ofs - self.position)
                        };
                        let ghost before_copy = self.window@;
                        let ghost here = self@;
                        let mut k: usize = 0;
                        while k < len
                            invariant
                                k <= len <= MAX_MATCH_LEN,
                                pos <= WINDOW_SIZE,
                                self.wf(),
                                self@ == (ReaderView {
                                    window: copied(
                                        before_copy,
                                        pos as int,
                                        self.position as int,
                                        k as nat,
                                    ),
                                    ..here
                                }),
                                self.remaining() <= old(self).remaining(),
                            decreases len - k,
                        {
                            let b = self.window[mod_window(pos + k)];
                            self.window.set(mod_window(self.position + k), b);
                            k += 1;
                        }
                        self.position = mod_window(self.position + len);
                        proof {
                            assert(self@ == match_expanded(here, m1, m2));
                        }
                    },
                    _ => {
                        return Err(Error::UnexpectedEof);
                    },
                }
            } else {
                // A one bit marks a literal: the next byte goes into the
                // window.
                match self.inner.read_byte() {
                    Ok(Some(lit)) => {
                        self.window.set(self.position, lit);
                        self.position = mod_window(self.position + 1);
                    },
                    Ok(None) => {
                        // The end here means a broken stream: the
                        // compressor does not put a one bit into the flags
                        // when the stream ends.
                        self.eof = true;
                        return Err(Error::UnexpectedEof);
                    },
                    Err(e) => {
                        return Err(e);
                    },
                }
            }
            mask = mask >> 1;
            i += 1;
        }
        Ok(())
    }

    /// Expand the whole stream and append the bytes that it stands for to
    /// `output`.  Returns the number of bytes appended.  Fails where the
    /// stream ends within a group or within the code of a byte.
    pub fn read_to_end(&mut self, output: &mut Vec<u8>) -> (r: Result<usize, Error>)
        requires
            old(self).wf(),
        ensures
            final(self).wf(),
            !old(self).at_eof() ==> match expanded(
                ReaderView { returned: old(self)@.position, ..old(self)@ },
            ) {
                Ok(s) => r is Ok && final(output)@ == old(output)@ + given_out(
                    old(self)@.window,
                    old(self)@.returned as int,
                    old(self)@.position as int,
                ) + s,
                Err(e) => r == Err::<usize, Error>(e),
            },
            old(self).at_eof() ==> r == Ok::<usize, Error>(0) && final(output)@ == old(output)@,
            r matches Ok(n) ==> final(self).at_eof() && final(output)@.len() == old(output)@.len()
                + n,
            extends_bytes(final(output)@, old(output)@),
            r matches Err(e) ==> e == Error::UnexpectedEof || e == Error::CodeTooLong,
    {
        let begin: usize = output.len();
        proof {
            lemma_extends_bytes_self(output@);
        }
        if self.eof {
            return Ok(0);
        }
        // Give out what was expanded before and not given out.
        self.copy_out(output);
        let ghost goal = expanded(self@);
        let ghost first = output@;
        let ghost mut done: Seq<u8> = Seq::empty();
        proof {
            assert(first + done =~= first);
            assert(behind(done, goal) == goal) by {
                if goal is Ok {
                    assert(done + goal->Ok_0 =~= goal->Ok_0);
                }
            }
        }
        loop
            invariant
                self.wf(),
                begin == old(output)@.len(),
                first == old(output)@ + given_out(
                    old(self)@.window,
                    old(self)@.returned as int,
                    old(self)@.position as int,
                ),
                output@ == first + done,
                !old(self).at_eof(),
                goal == expanded(ReaderView { returned: old(self)@.position, ..old(self)@ }),
                goal == behind(done, expanded(self@)),
                extends_bytes(output@, old(output)@),
            decreases self.remaining(),
        {
            let ghost here = self@;
            proof {
                lemma_expanded(here);
            }
            let token = match self.inner.read_byte() {
                Ok(Some(token)) => token,
                Ok(None) => {
                    self.eof = true;
                    proof {
                        assert(done + Seq::<u8>::empty() =~= done);
                    }
                    return Ok(output.len() - begin);
                },
                Err(e) => {
                    return Err(e);
                },
            };
            match self.process_group(token) {
                Ok(()) => {},
                Err(e) => {
                    return Err(e);
                },
            }
            let ghost mid = output@;
            let ghost w = self@;
            self.copy_out(output);
            proof {
                lemma_extends_bytes_trans(output@, mid, old(output)@);
                let piece = given_out(w.window, w.returned as int, w.position as int);
                let next = expanded(self@);
                assert(expanded(here) == behind(piece, next));
                assert(output@ =~= first + (done + piece));
                assert(goal == behind(done + piece, next)) by {
                    if next is Ok {
                        assert(done + (piece + next->Ok_0) =~= (done + piece) + next->Ok_0);
                    }
                }
                done = done + piece;
            }
        }
    }
}

/// Compress `input` and append the compressed data to `output`.  Fails
/// where the Huffman tree gets into a shape that cannot be coded.
pub fn compress(input: &[u8], output: Vec<u8>) -> (r: Result<Vec<u8>, Error>)
    ensures
        match compressed(output@, input@) {
            Some(bytes) => r matches Ok(out) && out@ == bytes,
            None => r matches Err(e) && e == Error::CodeTooLong,
        },
        r matches Err(e) ==> e == Error::CodeTooLong,
{
    let mut cw = Writer::new(output);
    match cw.write(input) {
        Ok(_) => {},
        Err(e) => {
            return Err(e);
        },
    }
    match cw.flush() {
        Ok(()) => {},
        Err(e) => {
            return Err(e);
        },
    }
    Ok(cw.into_inner())
}

/// Decompress the data in `input` and append the decompressed bytes to
/// `output`.  Fails where the stream ends within a group or within the code
/// of a byte.
pub fn decompress(input: &[u8], output: Vec<u8>) -> (r: Result<Vec<u8>, Error>)
    ensures
        match decoded(input@) {
            Ok(s) => r matches Ok(out) && out@ == output@ + s,
            Err(e) => r matches Err(x) && x == e,
        },
        r matches Ok(out) ==> extends_bytes(out@, output@),
        r matches Err(e) ==> e == Error::UnexpectedEof || e == Error::CodeTooLong,
{
    let mut out = output;
    let mut cr = Reader::new(input);
    proof {
        assert(out@ + given_out(cr@.window, 0, 0) =~= out@);
    }
    match cr.read_to_end(&mut out) {
        Ok(_) => Ok(out),
        Err(e) => Err(e),
    }
}

} // verus!
