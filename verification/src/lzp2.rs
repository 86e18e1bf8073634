//! An LZP compressor behind an adaptive Huffman coder.
//!
//! The stream of the compressor is a sequence of groups of up to eight
//! items.  A group starts with a byte of flags, one bit per item from the
//! highest bit down: a one marks a literal, which takes one byte, a zero a
//! match, which takes one byte that holds a length of 1 to 256.  Where a
//! match starts is not written: compressor and decompressor look it up
//! under the hash of the last three bytes.  This stream is not written as
//! it is but through an adaptive Huffman compressor.

use vstd::prelude::*;
use crate::error::Error;
use crate::huff::adaptive as nested;
use crate::bits::{byte_bit, extends, extends_bytes, lemma_extends_bytes_push, lemma_extends_bytes_self, lemma_extends_bytes_trans, lemma_extends_self, lemma_extends_trans, lemma_mask_ops, weight};

verus! {

pub const WINDOW_BITS: usize = 12;

pub const LENGTH_BITS: usize = 8;

/// The shortest match.
pub const MIN_MATCH_LEN: usize = 1;

/// The longest match.
pub const MAX_MATCH_LEN: usize = 256;

/// The number of bytes that the compressor looks ahead.
pub const LOOK_AHEAD_BYTES: usize = 256;

/// The number of bytes of the context.
pub const MAX_CONTEXT: usize = 3;

/// The size of the window.
pub const WINDOW_SIZE: usize = 4096;

/// The number of entries of the hash table.
pub const HASHTAB_SIZE: usize = 1024;

/// The size of the buffer for a group: a byte of flags and two bytes for
/// each of eight items.
pub const GROUP_BYTES: usize = 17;

/// Reduce a position to the window.
#[inline(always)]
pub fn mod_window(x: usize) -> (r: usize)
    ensures
        r == x % WINDOW_SIZE,
        r < WINDOW_SIZE,
{
    x % WINDOW_SIZE
}

/// The number that the three bytes of a context make, the first byte
/// highest.
pub open spec fn context_value(context: Seq<u8>) -> int {
    context[0] * 0x1_0000 + context[1] * 0x100 + context[2]
}

/// The hash of a context of three bytes: the number that they make,
/// reduced to the size of the hash table.
pub open spec fn context_hash(context: Seq<u8>) -> int {
    context_value(context) % (HASHTAB_SIZE as int)
}

/// The position at which the context of `position` starts: three bytes
/// before it, around the end of the window.
pub open spec fn context_start(position: int) -> int {
    if position >= MAX_CONTEXT {
        position - MAX_CONTEXT
    } else {
        WINDOW_SIZE - (MAX_CONTEXT - position)
    }
}

/// The context of `position`: the three bytes before it in the window.
pub open spec fn context_at(window: Seq<u8>, position: int) -> Seq<u8> {
    Seq::new(
        MAX_CONTEXT as nat,
        |i: int| window[(context_start(position) + i) % (WINDOW_SIZE as int)],
    )
}

/// The number of bytes, from the `at`-th on and `bound` at most, up to
/// which the bytes of the window from `a` on and from `b` on are equal.
pub open spec fn common_length(window: Seq<u8>, a: int, b: int, at: nat, bound: nat) -> nat
    decreases bound - at,
{
    if at >= bound || window[(a + at) % (WINDOW_SIZE as int)] != window[(b + at) % (
    WINDOW_SIZE as int)] {
        at
    } else {
        common_length(window, a, b, at + 1, bound)
    }
}

/// The length of the match that the compressor finds between the bytes at
/// `match_pos` and those at `search_pos`, of which `waiting` wait: none
/// where the positions are the same or no two bytes wait.
pub open spec fn match_length(window: Seq<u8>, match_pos: int, search_pos: int, waiting: nat) -> nat {
    if waiting > MIN_MATCH_LEN && match_pos != search_pos {
        common_length(
            window,
            match_pos,
            search_pos,
            0,
            if waiting < MAX_MATCH_LEN {
                waiting
            } else {
                MAX_MATCH_LEN as nat
            },
        )
    } else {
        0
    }
}

/// The hash of a context of three bytes.
fn hash_of(context: &Vec<u8>) -> (h: usize)
    requires
        context@.len() == MAX_CONTEXT,
    ensures
        h < HASHTAB_SIZE,
        h == context_hash(context@),
{
    let mut h: usize = 0;
    let mut i: usize = 0;
    while i < MAX_CONTEXT
        invariant
            i <= MAX_CONTEXT,
            context@.len() == MAX_CONTEXT,
            i == 0 ==> h == 0,
            i == 1 ==> h < 0x100 && h == context@[0],
            i == 2 ==> h < 0x1_0000 && h == context@[0] * 0x100 + context@[1],
            i == 3 ==> h < 0x100_0000 && h == context_value(context@),
        decreases MAX_CONTEXT - i,
    {
        let b = context[i] as usize;
        assert((h << 8) + b < 0x100_0000 && (h < 0x100 ==> (h << 8) + b < 0x1_0000) && (h == 0
            ==> (h << 8) + b < 0x100) && (h << 8) == h * 256) by (bit_vector)
            requires
                h < 0x1_0000,
                b < 256,
        ;
        h = (h << 8) + b;
        i += 1;
    }
    h % HASHTAB_SIZE
}

/// A table of `n` copies of `value`.
fn filled(n: usize, value: usize) -> (v: Vec<usize>)
    ensures
        v@.len() == n,
        v@ == Seq::new(n as nat, |j: int| value),
        forall|j: int| 0 <= j < n ==> v@[j] == value,
{
    let mut v: Vec<usize> = Vec::new();
    let mut i: usize = 0;
    while i < n
        invariant
            i <= n,
            v@.len() == i,
            forall|j: int| 0 <= j < i ==> v@[j] == value,
        decreases n - i,
    {
        v.push(value);
        i += 1;
    }
    proof {
        assert(v@ =~= Seq::new(n as nat, |j: int| value));
    }
    v
}

/// A buffer of `n` zero bytes.
fn zero_bytes(n: usize) -> (v: Vec<u8>)
    ensures
        v@.len() == n,
        v@ == Seq::new(n as nat, |j: int| 0u8),
{
    let mut v: Vec<u8> = Vec::new();
    let mut i: usize = 0;
    while i < n
        invariant
            i <= n,
            v@.len() == i,
            forall|j: int| 0 <= j < i ==> v@[j] == 0,
        decreases n - i,
    {
        v.push(0);
        i += 1;
    }
    proof {
        assert(v@ =~= Seq::new(n as nat, |j: int| 0u8));
    }
    v
}

/// What a compressor has come to: the Huffman compressor below it, the
/// window, the hash table, the position, the number of bytes that wait, the
/// context, and the group that is being filled.
pub struct WriterView {
    pub coder: nested::CoderView,
    pub window: Seq<u8>,
    pub hashtab: Seq<usize>,
    pub position: usize,
    pub waiting: usize,
    pub context: Seq<u8>,
    pub flags: u8,
    pub count: usize,
    pub data: Seq<u8>,
    pub len: usize,
}

/// The compressor that starts behind the bytes `output`.
pub open spec fn start_view(output: Seq<u8>) -> WriterView {
    WriterView {
        coder: nested::CoderView {
            bits: crate::bits::bytes_to_bits(output),
            tree: nested::first_shape(),
        },
        window: Seq::new(WINDOW_SIZE as nat, |j: int| 0u8),
        hashtab: Seq::new(HASHTAB_SIZE as nat, |j: int| 0usize),
        position: 0,
        waiting: 0,
        context: Seq::new(MAX_CONTEXT as nat, |j: int| 0u8),
        flags: 0,
        count: 0,
        data: Seq::new(GROUP_BYTES as nat, |j: int| 0u8),
        len: 1,
    }
}

/// The compressor after the group that is being filled was written: its
/// flags, moved up to the highest bits, and the bytes of its items go to
/// the Huffman compressor.  `None` where that cannot code them.
pub open spec fn group_flushed(v: WriterView) -> Option<WriterView> {
    if v.count > 0 {
        let flags = if v.count < 8 {
            v.flags << ((8 - v.count) as u8)
        } else {
            v.flags
        };
        match nested::written(v.coder, v.data.update(0, flags).subrange(0, v.len as int)) {
            None => None,
            Some(c) => Some(
                WriterView {
                    coder: c,
                    flags: 0,
                    count: 0,
                    len: 1,
                    data: v.data.update(0, flags),
                    ..v
                },
            ),
        }
    } else {
        Some(v)
    }
}

/// The compressor after an item of one byte was added to the group, a
/// literal or the length of a match; a full group is written before.
pub open spec fn item_put(v: WriterView, literal: bool, byte: u8) -> Option<WriterView> {
    match (if v.count == 8 {
        group_flushed(v)
    } else {
        Some(v)
    }) {
        None => None,
        Some(w) => Some(
            WriterView {
                count: (w.count + 1) as usize,
                flags: if literal {
                    (w.flags << 1) | 1
                } else {
                    w.flags << 1
                },
                data: w.data.update(w.len as int, byte),
                len: (w.len + 1) as usize,
                ..w
            },
        ),
    }
}

/// The distance from `match_pos` to `position`, around the window.
pub open spec fn distance(match_pos: int, position: int) -> int {
    if match_pos < position {
        position - match_pos
    } else {
        position + (WINDOW_SIZE - match_pos)
    }
}

/// The compressor after the next bytes that wait were compressed: as a
/// match where the hash table leads from the context to one, else the
/// first of them as a literal.
pub open spec fn processed(v: WriterView) -> Option<WriterView> {
    let hsh = context_hash(v.context);
    let match_pos = v.hashtab[hsh];
    let len = match_length(v.window, match_pos as int, v.position as int, v.waiting as nat);
    if distance(match_pos as int, v.position as int) < WINDOW_SIZE - MAX_MATCH_LEN && len
        >= MIN_MATCH_LEN {
        match item_put(v, false, (len - MIN_MATCH_LEN) as u8) {
            None => None,
            Some(w) => Some(
                WriterView {
                    position: ((v.position + len) % (WINDOW_SIZE as int)) as usize,
                    waiting: (v.waiting - len) as usize,
                    hashtab: v.hashtab.update(hsh, v.position),
                    context: context_at(v.window, (v.position + len) % (WINDOW_SIZE as int)),
                    ..w
                },
            ),
        }
    } else {
        match item_put(v, true, v.window[v.position as int]) {
            None => None,
            Some(w) => Some(
                WriterView {
                    position: ((v.position + 1) % (WINDOW_SIZE as int)) as usize,
                    waiting: (v.waiting - 1) as usize,
                    context: context_at(v.window, (v.position + 1) % (WINDOW_SIZE as int)),
                    ..w
                },
            ),
        }
    }
}

/// The compressor after the byte `b` was put behind the bytes that wait.
pub open spec fn byte_taken(v: WriterView, b: u8) -> WriterView {
    WriterView {
        window: v.window.update((v.position + v.waiting) % (WINDOW_SIZE as int), b),
        waiting: (v.waiting + 1) as usize,
        ..v
    }
}

/// The compressor after the bytes were taken in: each is put behind the
/// bytes that wait, and whenever the look-ahead space is full, the next of
/// them are compressed.
pub open spec fn taken(v: WriterView, bytes: Seq<u8>) -> Option<WriterView>
    decreases bytes.len(), v.waiting,
{
    if bytes.len() == 0 {
        Some(v)
    } else if v.waiting < LOOK_AHEAD_BYTES {
        if v.waiting + 1 == LOOK_AHEAD_BYTES {
            match processed(byte_taken(v, bytes[0])) {
                None => None,
                Some(w) => taken(w, bytes.skip(1)),
            }
        } else {
            taken(byte_taken(v, bytes[0]), bytes.skip(1))
        }
    } else {
        match processed(v) {
            None => None,
            Some(w) => if w.waiting < v.waiting {
                taken(w, bytes)
            } else {
                None
            },
        }
    }
}

/// The compressor after all bytes that wait were compressed.
pub open spec fn all_processed(v: WriterView) -> Option<WriterView>
    decreases v.waiting,
{
    if v.waiting == 0 {
        Some(v)
    } else {
        match processed(v) {
            None => None,
            Some(w) => if w.waiting < v.waiting {
                all_processed(w)
            } else {
                None
            },
        }
    }
}

/// The bytes of the stream that is ended after the compressor came to `v`:
/// the bytes that wait are compressed, the last group is written, and the
/// stream of the Huffman compressor is ended.
pub open spec fn finished(v: WriterView) -> Option<Seq<u8>> {
    match all_processed(v) {
        None => None,
        Some(w) => match group_flushed(w) {
            None => None,
            Some(x) => match nested::ended(x.coder) {
                None => None,
                Some(bits) => Some(crate::bits::pack_bits(bits)),
            },
        },
    }
}

/// The bytes that compressing `input` behind the bytes `output` gives;
/// `None` where the Huffman tree gets into a shape that cannot be coded.
pub open spec fn compressed(output: Seq<u8>, input: Seq<u8>) -> Option<Seq<u8>> {
    match taken(start_view(output), input) {
        None => None,
        Some(v) => finished(v),
    }
}

/// Writer for LZP compressed streams.
pub struct Writer {
    inner: nested::Writer,
    window: Vec<u8>,
    hashtab: Vec<usize>,
    position: usize,
    look_ahead_bytes: usize,
    context: Vec<u8>,
    out_flags: u8,
    out_count: usize,
    out_data: Vec<u8>,
    out_len: usize,
}

impl View for Writer {
    type V = WriterView;

    closed spec fn view(&self) -> WriterView {
        WriterView {
            coder: self.inner.view(),
            window: self.window@,
            hashtab: self.hashtab@,
            position: self.position,
            waiting: self.look_ahead_bytes,
            context: self.context@,
            flags: self.out_flags,
            count: self.out_count,
            data: self.out_data@,
            len: self.out_len,
        }
    }
}

impl Writer {
    /// The bits of the compressed stream as written so far.
    pub closed spec fn bits(&self) -> Seq<bool> {
        self.inner.bits()
    }

    /// The bytes of the compressed stream that have reached the buffer.
    pub closed spec fn bytes(&self) -> Seq<u8> {
        self.inner.bytes()
    }

    /// The number of bytes that were taken in and wait to be compressed.
    pub closed spec fn waiting(&self) -> int {
        self.look_ahead_bytes as int
    }

    /// The compressor is in order.
    pub closed spec fn wf(&self) -> bool {
        &&& self.inner.wf()
        &&& self.window@.len() == WINDOW_SIZE
        &&& self.hashtab@.len() == HASHTAB_SIZE
        &&& forall|i: int| 0 <= i < HASHTAB_SIZE ==> #[trigger] self.hashtab@[i] < WINDOW_SIZE
        &&& self.position < WINDOW_SIZE
        &&& self.look_ahead_bytes <= LOOK_AHEAD_BYTES
        &&& self.context@.len() == MAX_CONTEXT
        &&& self.out_data@.len() == GROUP_BYTES
        &&& self.out_count <= 8
        &&& 1 <= self.out_len <= 1 + 2 * self.out_count
    }

    /// Create a new LZP compressor that appends to `inner`.
    pub fn new(inner: Vec<u8>) -> (w: Writer)
        ensures
            w.wf(),
            w@ == start_view(inner@),
            w.bytes() == inner@,
            w.waiting() == 0,
    {
        Writer {
            inner: nested::Writer::new(inner),
            window: zero_bytes(WINDOW_SIZE),
            hashtab: filled(HASHTAB_SIZE, 0),
            position: 0,
            look_ahead_bytes: 0,
            context: zero_bytes(MAX_CONTEXT),
            out_flags: 0,
            out_count: 0,
            out_data: zero_bytes(GROUP_BYTES),
            out_len: 1,
        }
    }

    /// Write the group that is being filled: its flags, moved up to the
    /// highest bits, and the bytes of its items.
    fn emit_flush(&mut self) -> (r: Result<(), Error>)
        requires
            old(self).wf(),
        ensures
            final(self).wf(),
            match group_flushed(old(self)@) {
                Some(v) => r is Ok && final(self)@ == v,
                None => r == Err::<(), Error>(Error::CodeTooLong),
            },
            r is Ok ==> final(self).out_count == 0,
            final(self).window == old(self).window,
            final(self).hashtab == old(self).hashtab,
            final(self).position == old(self).position,
            final(self).look_ahead_bytes == old(self).look_ahead_bytes,
            final(self).context == old(self).context,
            r matches Err(e) ==> e == Error::CodeTooLong,
            extends(final(self).bits(), old(self).bits()),
    {
        proof {
            lemma_extends_self(self.bits());
        }
        if self.out_count > 0 {
            if self.out_count < 8 {
                self.out_flags = self.out_flags << ((8 - self.out_count) as u8);
            }
            self.out_data.set(0, self.out_flags);
            let data = vstd::slice::slice_subrange(self.out_data.as_slice(), 0, self.out_len);
            match self.inner.write(data) {
                Ok(_) => {},
                Err(e) => {
                    return Err(e);
                },
            }

            self.out_flags = 0;
            self.out_count = 0;
            self.out_len = 1;
        }
        Ok(())
    }

    /// Add the literal `lit` to the group.
    fn emit_lit(&mut self, lit: u8) -> (r: Result<(), Error>)
        requires
            old(self).wf(),
        ensures
            final(self).wf(),
            match item_put(old(self)@, true, lit) {
                Some(v) => r is Ok && final(self)@ == v,
                None => r == Err::<(), Error>(Error::CodeTooLong),
            },
            final(self).window == old(self).window,
            final(self).hashtab == old(self).hashtab,
            final(self).position == old(self).position,
            final(self).look_ahead_bytes == old(self).look_ahead_bytes,
            final(self).context == old(self).context,
            r matches Err(e) ==> e == Error::CodeTooLong,
            extends(final(self).bits(), old(self).bits()),
    {
        proof {
            lemma_extends_self(self.bits());
        }
        if self.out_count == 8 {
            match self.emit_flush() {
                Ok(()) => {},
                Err(e) => {
                    return Err(e);
                },
            }
        }
        self.out_count += 1;
        self.out_flags = (self.out_flags << 1) | 1;
        self.out_data.set(self.out_len, lit);
        self.out_len += 1;
        Ok(())
    }

    /// Add a match to the group, of which only the length `len` is written.
    pub fn emit_match(&mut self, len: u8) -> (r: Result<(), Error>)
        requires
            old(self).wf(),
        ensures
            final(self).wf(),
            match item_put(old(self)@, false, len) {
                Some(v) => r is Ok && final(self)@ == v,
                None => r == Err::<(), Error>(Error::CodeTooLong),
            },
            final(self).waiting() == old(self).waiting(),
            r matches Err(e) ==> e == Error::CodeTooLong,
            extends(final(self).bits(), old(self).bits()),
    {
        self.put_match(len)
    }

    /// Add a match to the group, as `emit_match` does.
    fn put_match(&mut self, len: u8) -> (r: Result<(), Error>)
        requires
            old(self).wf(),
        ensures
            final(self).wf(),
            match item_put(old(self)@, false, len) {
                Some(v) => r is Ok && final(self)@ == v,
                None => r == Err::<(), Error>(Error::CodeTooLong),
            },
            final(self).window == old(self).window,
            final(self).hashtab == old(self).hashtab,
            final(self).position == old(self).position,
            final(self).look_ahead_bytes == old(self).look_ahead_bytes,
            final(self).context == old(self).context,
            r matches Err(e) ==> e == Error::CodeTooLong,
            extends(final(self).bits(), old(self).bits()),
    {
        proof {
            lemma_extends_self(self.bits());
        }
        if self.out_count == 8 {
            match self.emit_flush() {
                Ok(()) => {},
                Err(e) => {
                    return Err(e);
                },
            }
        }
        self.out_count += 1;
        self.out_flags = self.out_flags << 1;
        self.out_data.set(self.out_len, len);
        self.out_len += 1;
        Ok(())
    }

    /// Take the three bytes before the position as the context.
    fn update_context(&mut self)
        requires
            old(self).wf(),
        ensures
            final(self).wf(),
            final(self).context@ == context_at(old(self).window@, old(self).position as int),
            final(self).inner == old(self).inner,
            final(self).window == old(self).window,
            final(self).hashtab == old(self).hashtab,
            final(self).position == old(self).position,
            final(self).look_ahead_bytes == old(self).look_ahead_bytes,
            final(self).out_flags == old(self).out_flags,
            final(self).out_count == old(self).out_count,
            final(self).out_data == old(self).out_data,
            final(self).out_len == old(self).out_len,
    {
        let start = if self.position >= MAX_CONTEXT {
            self.position - MAX_CONTEXT
        } else {
            WINDOW_SIZE - (MAX_CONTEXT - self.position)
        };
        let mut i: usize = 0;
        while i < MAX_CONTEXT
            invariant
                i <= MAX_CONTEXT,
                start <= WINDOW_SIZE,
                self.wf(),
                start == context_start(old(self).position as int),
                forall|j: int|
                    0 <= j < i ==> self.context@[j] == context_at(
                        old(self).window@,
                        old(self).position as int,
                    )[j],
                self.inner == old(self).inner,
                self.window == old(self).window,
                self.hashtab == old(self).hashtab,
                self.position == old(self).position,
                self.look_ahead_bytes == old(self).look_ahead_bytes,
                self.out_flags == old(self).out_flags,
                self.out_count == old(self).out_count,
                self.out_data == old(self).out_data,
                self.out_len == old(self).out_len,
            decreases MAX_CONTEXT - i,
        {
            let b = self.window[mod_window(start + i)];
            self.context.set(i, b);
            i += 1;
        }
        proof {
            assert(self.context@ =~= context_at(old(self).window@, old(self).position as int));
        }
    }

    /// The hash of the context, under which the place is looked up at which
    /// the same context stood before.
    fn hash_context(&self) -> (h: usize)
        requires
            self.wf(),
        ensures
            h < HASHTAB_SIZE,
            h == context_hash(self.context@),
    {
        hash_of(&self.context)
    }

    /// The length of the match between the bytes at `match_pos` and those
    /// at `search_pos`.
    fn find_longest_match(&self, match_pos: usize, search_pos: usize) -> (len: usize)
        requires
            self.wf(),
            match_pos < WINDOW_SIZE,
            search_pos < WINDOW_SIZE,
        ensures
            len <= self.look_ahead_bytes,
            len <= MAX_MATCH_LEN,
            len == match_length(
                self.window@,
                match_pos as int,
                search_pos as int,
                self.look_ahead_bytes as nat,
            ),
    {
        if self.look_ahead_bytes > MIN_MATCH_LEN && match_pos != search_pos {
            let bound = if self.look_ahead_bytes < MAX_MATCH_LEN {
                self.look_ahead_bytes
            } else {
                MAX_MATCH_LEN
            };
            let ghost goal = common_length(
                self.window@,
                match_pos as int,
                search_pos as int,
                0,
                bound as nat,
            );
            let mut match_len: usize = 0;
            while match_len < bound
                invariant
                    self.wf(),
                    match_pos < WINDOW_SIZE,
                    search_pos < WINDOW_SIZE,
                    match_len <= bound <= MAX_MATCH_LEN,
                    goal == common_length(
                        self.window@,
                        match_pos as int,
                        search_pos as int,
                        match_len as nat,
                        bound as nat,
                    ),
                ensures
                    match_len <= bound,
                    match_len == goal,
                decreases bound - match_len,
            {
                if self.window[mod_window(match_pos + match_len)] != self.window[mod_window(
                    search_pos + match_len,
                )] {
                    break ;
                }
                match_len += 1;
            }
            match_len
        } else {
            0
        }
    }

    /// Compress the next bytes that wait: as a match where the hash table
    /// leads to one, else the first of them as a literal.
    fn process(&mut self) -> (r: Result<(), Error>)
        requires
            old(self).wf(),
            old(self).look_ahead_bytes > 0,
        ensures
            final(self).wf(),
            match processed(old(self)@) {
                Some(v) => r is Ok && final(self)@ == v,
                None => r == Err::<(), Error>(Error::CodeTooLong),
            },
            r is Ok ==> final(self).look_ahead_bytes < old(self).look_ahead_bytes,
            r matches Err(e) ==> e == Error::CodeTooLong,
            extends(final(self).bits(), old(self).bits()),
    {
        let search_pos = self.position;

        let hsh = self.hash_context();
        let match_pos = self.hashtab[hsh];
        assert(self.hashtab@[hsh as int] < WINDOW_SIZE);

        let ofs = if match_pos < self.position {
            self.position - match_pos
        } else {
            self.position + (WINDOW_SIZE - match_pos)
        };

        let match_len = self.find_longest_match(match_pos, search_pos);

        if ofs < WINDOW_SIZE - MAX_MATCH_LEN && match_len >= MIN_MATCH_LEN {
            match self.put_match((match_len - MIN_MATCH_LEN) as u8) {
                Ok(()) => {},
                Err(e) => {
                    return Err(e);
                },
            }

            self.position = mod_window(self.position + match_len);
            self.look_ahead_bytes -= match_len;
            let ghost before = self.hashtab@;
            self.hashtab.set(hsh, search_pos);
            proof {
                assert forall|i: int| 0 <= i < HASHTAB_SIZE implies #[trigger] self.hashtab@[i]
                    < WINDOW_SIZE by {
                    assert(before[i] < WINDOW_SIZE);
                }
            }
        } else {
            let lit = self.window[self.position];
            match self.emit_lit(lit) {
                Ok(()) => {},
                Err(e) => {
                    return Err(e);
                },
            }

            self.position = mod_window(self.position + 1);
            self.look_ahead_bytes -= 1;
        }
        self.update_context();
        Ok(())
    }

    /// Give up the compressor for the buffer it wrote to.
    pub fn to_inner(self) -> (inner: Vec<u8>)
        ensures
            inner@ == self.bytes(),
    {
        self.inner.into_inner()
    }

    /// Take in the bytes of `buf`, compressing whenever the look-ahead space
    /// is full, and return the number of bytes taken in.  Fails where the
    /// Huffman tree gets into a shape that cannot be coded.
    pub fn write(&mut self, buf: &[u8]) -> (r: Result<usize, Error>)
        requires
            old(self).wf(),
        ensures
            final(self).wf(),
            match taken(old(self)@, buf@) {
                Some(v) => r == Ok::<usize, Error>(buf@.len() as usize) && final(self)@ == v,
                None => r == Err::<usize, Error>(Error::CodeTooLong),
            },
            r matches Ok(n) ==> n == buf@.len(),
            r matches Err(e) ==> e == Error::CodeTooLong,
            extends(final(self).bits(), old(self).bits()),
    {
        let ghost start = self.bits();
        let ghost goal = taken(self@, buf@);
        proof {
            lemma_extends_self(start);
            assert(buf@.skip(0) =~= buf@);
        }
        let mut written: usize = 0;
        while written < buf.len()
            invariant
                written <= buf@.len(),
                self.wf(),
                start == old(self).bits(),
                goal == taken(old(self)@, buf@),
                goal == taken(self@, buf@.skip(written as int)),
                extends(self.bits(), start),
            decreases buf@.len() - written, self.look_ahead_bytes,
        {
            let ghost here = self@;
            let ghost rest = buf@.skip(written as int);
            proof {
                assert(rest[0] == buf@[written as int]);
                assert(rest.skip(1) =~= buf@.skip(written + 1));
            }
            if self.look_ahead_bytes < LOOK_AHEAD_BYTES {
                let at = mod_window(self.position + self.look_ahead_bytes);
                self.window.set(at, buf[written]);
                self.look_ahead_bytes += 1;
                written += 1;
                proof {
                    assert(self@ == byte_taken(here, rest[0]));
                }
            }
            if self.look_ahead_bytes == LOOK_AHEAD_BYTES {
                let ghost mid = self.bits();
                let r = self.process();
                proof {
                    lemma_extends_trans(self.bits(), mid, start);
                }
                match r {
                    Ok(()) => {},
                    Err(e) => {
                        return Err(e);
                    },
                }
            }
        }
        Ok(written)
    }

    /// Compress all bytes that wait, write the last group, and end the
    /// stream of the Huffman compressor.
    pub fn flush(&mut self) -> (r: Result<(), Error>)
        requires
            old(self).wf(),
        ensures
            final(self).wf(),
            match finished(old(self)@) {
                Some(bytes) => r is Ok && final(self).bytes() == bytes,
                None => r == Err::<(), Error>(Error::CodeTooLong),
            },
            r is Ok ==> final(self).waiting() == 0,
            r matches Err(e) ==> e == Error::CodeTooLong,
    {
        let ghost goal = all_processed(self@);
        while self.look_ahead_bytes > 0
            invariant
                self.wf(),
                goal == all_processed(old(self)@),
                goal == all_processed(self@),
            decreases self.look_ahead_bytes,
        {
            match self.process() {
                Ok(()) => {},
                Err(e) => {
                    return Err(e);
                },
            }
        }
        match self.emit_flush() {
            Ok(()) => {},
            Err(e) => {
                return Err(e);
            },
        }
        self.inner.flush()
    }
}

/// What a decompressor has come to: the Huffman decompressor below it,
/// the window, the hash table, the context, the position, the position up
/// to which the bytes were given out, and whether the end of the stream
/// was found.
pub struct ReaderView {
    pub coder: nested::ReaderView,
    pub window: Seq<u8>,
    pub hashtab: Seq<usize>,
    pub context: Seq<u8>,
    pub position: usize,
    pub returned: usize,
    pub eof: bool,
}

/// The decompressor that starts on `input`.
pub open spec fn start_reader(input: Seq<u8>) -> ReaderView {
    ReaderView {
        coder: nested::ReaderView {
            tree: nested::first_shape(),
            src: crate::bitfile::BitSource { bits: crate::bits::bytes_to_bits(input), extra: 0 },
            eof: false,
        },
        window: Seq::new(WINDOW_SIZE as nat, |j: int| 0u8),
        hashtab: Seq::new(HASHTAB_SIZE as nat, |j: int| 0usize),
        context: Seq::new(MAX_CONTEXT as nat, |j: int| 0u8),
        position: 0,
        returned: 0,
        eof: false,
    }
}

/// The window after `n` bytes were copied, byte by byte, from `from` on to
/// `to` on, around its end.
pub open spec fn copied(window: Seq<u8>, from: int, to: int, n: nat) -> Seq<u8>
    decreases n,
{
    if n == 0 {
        window
    } else {
        copied(window, from, to, (n - 1) as nat).update(
            (to + (n - 1)) % (WINDOW_SIZE as int),
            copied(window, from, to, (n - 1) as nat)[(from + (n - 1)) % (WINDOW_SIZE as int)],
        )
    }
}

/// The decompressor after the item with the flag `i` of `token` and the
/// items behind it were expanded.  A match is the length of a copy from the
/// place to which the hash table leads from the context; a literal is a
/// byte.  The group ends where the stream ends at a match.  Fails where it
/// ends at a literal.
pub open spec fn group_from(v: ReaderView, token: u8, i: int) -> Result<ReaderView, Error>
    decreases 8 - i,
{
    if i >= 8 || i < 0 {
        Ok(v)
    } else {
        match nested::byte_read(v.coder) {
            Err(e) => Err(e),
            Ok((None, c)) => if byte_bit(token, i) {
                Err(Error::UnexpectedEof)
            } else {
                Ok(ReaderView { coder: c, eof: true, ..v })
            },
            Ok((Some(b), c)) => if byte_bit(token, i) {
                group_from(
                    ReaderView {
                        coder: c,
                        window: v.window.update(v.position as int, b),
                        position: ((v.position + 1) % (WINDOW_SIZE as int)) as usize,
                        context: context_at(
                            v.window.update(v.position as int, b),
                            (v.position + 1) % (WINDOW_SIZE as int),
                        ),
                        ..v
                    },
                    token,
                    i + 1,
                )
            } else {
                group_from(
                    ReaderView {
                        coder: c,
                        window: copied(
                            v.window,
                            v.hashtab[context_hash(v.context)] as int,
                            v.position as int,
                            (b + MIN_MATCH_LEN) as nat,
                        ),
                        hashtab: v.hashtab.update(context_hash(v.context), v.position),
                        position: ((v.position + b + MIN_MATCH_LEN) % (WINDOW_SIZE as int)) as usize,
                        context: context_at(
                            copied(
                                v.window,
                                v.hashtab[context_hash(v.context)] as int,
                                v.position as int,
                                (b + MIN_MATCH_LEN) as nat,
                            ),
                            (v.position + b + MIN_MATCH_LEN) % (WINDOW_SIZE as int),
                        ),
                        ..v
                    },
                    token,
                    i + 1,
                )
            },
        }
    }
}

/// The number of bytes from `returned` up to `position`, around the end of
/// the window.
pub open spec fn not_given(returned: int, position: int) -> int {
    if returned <= position {
        position - returned
    } else {
        WINDOW_SIZE - returned + position
    }
}

/// The bytes of the window from `returned` up to `position`, around its
/// end.
pub open spec fn given_out(window: Seq<u8>, returned: int, position: int) -> Seq<u8>
    decreases not_given(returned, position),
{
    if returned == position || returned < 0 || returned >= WINDOW_SIZE || position < 0 || position
        >= WINDOW_SIZE {
        Seq::empty()
    } else {
        seq![window[returned]] + given_out(
            window,
            (returned + 1) % (WINDOW_SIZE as int),
            position,
        )
    }
}

/// A result with `done` put before the bytes of a success.
pub open spec fn behind(done: Seq<u8>, r: Result<Seq<u8>, Error>) -> Result<Seq<u8>, Error> {
    match r {
        Ok(s) => Ok(done + s),
        Err(e) => Err(e),
    }
}

/// The bytes for which the groups in the input stand, up to the end of the
/// stream.
#[verifier::opaque]
pub open spec fn expanded(v: ReaderView) -> Result<Seq<u8>, Error>
    decreases v.coder.src.remaining(),
{
    match nested::byte_read(v.coder) {
        Err(e) => Err(e),
        Ok((None, c)) => Ok(Seq::empty()),
        Ok((Some(token), c)) => match group_from(ReaderView { coder: c, ..v }, token, 0) {
            Err(e) => Err(e),
            Ok(w) => if w.coder.src.remaining() < v.coder.src.remaining() {
                behind(
                    given_out(w.window, w.returned as int, w.position as int),
                    expanded(ReaderView { returned: w.position, ..w }),
                )
            } else {
                Err(Error::UnexpectedEof)
            },
        },
    }
}

/// What the groups stand for, by what the first byte of the input gives.
pub proof fn lemma_expanded(v: ReaderView)
    ensures
        expanded(v) == match nested::byte_read(v.coder) {
            Err(e) => Err::<Seq<u8>, Error>(e),
            Ok((None, c)) => Ok(Seq::empty()),
            Ok((Some(token), c)) => match group_from(ReaderView { coder: c, ..v }, token, 0) {
                Err(e) => Err(e),
                Ok(w) => if w.coder.src.remaining() < v.coder.src.remaining() {
                    behind(
                        given_out(w.window, w.returned as int, w.position as int),
                        expanded(ReaderView { returned: w.position, ..w }),
                    )
                } else {
                    Err(Error::UnexpectedEof)
                },
            },
        },
{
    reveal(expanded);
}

/// What decompressing `input` gives.
pub open spec fn decoded(input: Seq<u8>) -> Result<Seq<u8>, Error> {
    expanded(start_reader(input))
}

/// Reader for LZP compressed streams.
pub struct Reader<'a> {
    inner: nested::Reader<'a>,
    window: Vec<u8>,
    hashtab: Vec<usize>,
    context: Vec<u8>,
    position: usize,
    returned: usize,
    eof: bool,
}

impl<'a> View for Reader<'a> {
    type V = ReaderView;

    closed spec fn view(&self) -> ReaderView {
        ReaderView {
            coder: self.inner@,
            window: self.window@,
            hashtab: self.hashtab@,
            context: self.context@,
            position: self.position,
            returned: self.returned,
            eof: self.eof,
        }
    }
}

impl<'a> Reader<'a> {
    /// The number of bits of the input that were not read.
    pub open spec fn remaining(&self) -> nat {
        self@.coder.src.remaining()
    }

    /// Whether the end of the stream was found.
    pub open spec fn at_eof(&self) -> bool {
        self@.eof
    }

    /// The decompressor is in order.
    pub closed spec fn wf(&self) -> bool {
        &&& self.inner.wf()
        &&& self.window@.len() == WINDOW_SIZE
        &&& self.hashtab@.len() == HASHTAB_SIZE
        &&& forall|i: int| 0 <= i < HASHTAB_SIZE ==> #[trigger] self.hashtab@[i] < WINDOW_SIZE
        &&& self.context@.len() == MAX_CONTEXT
        &&& self.position < WINDOW_SIZE
        &&& self.returned < WINDOW_SIZE
    }

    /// Create a new LZP decompressor for the data in `inner`.
    pub fn new(inner: &'a [u8]) -> (r: Reader<'a>)
        ensures
            r.wf(),
            r@ == start_reader(inner@),
            !r.at_eof(),
            r.remaining() == 8 * inner@.len(),
    {
        Reader {
            inner: nested::Reader::new(inner),
            window: zero_bytes(WINDOW_SIZE),
            hashtab: filled(HASHTAB_SIZE, 0),
            context: zero_bytes(MAX_CONTEXT),
            position: 0,
            returned: 0,
            eof: false,
        }
    }

    /// Append the bytes that were expanded and not yet given out to
    /// `output`.
    fn copy_out(&mut self, output: &mut Vec<u8>)
        requires
            old(self).wf(),
        ensures
            final(self).wf(),
            final(output)@ == old(output)@ + given_out(
                old(self)@.window,
                old(self)@.returned as int,
                old(self)@.position as int,
            ),
            final(self)@ == (ReaderView { returned: old(self)@.position, ..old(self)@ }),
            final(self).eof == old(self).eof,
            final(self).inner == old(self).inner,
            extends_bytes(final(output)@, old(output)@),
    {
        let ghost goal = given_out(self.window@, self.returned as int, self.position as int);
        let ghost mut done: Seq<u8> = Seq::empty();
        proof {
            lemma_extends_bytes_self(output@);
            assert(output@ + done =~= output@);
            assert(done + goal =~= goal);
        }
        while self.returned != self.position
            invariant
                self.wf(),
                self.eof == old(self).eof,
                self.inner == old(self).inner,
                self.window == old(self).window,
                self.hashtab == old(self).hashtab,
                self.context == old(self).context,
                self.position == old(self).position,
                output@ == old(output)@ + done,
                goal == done + given_out(
                    self.window@,
                    self.returned as int,
                    self.position as int,
                ),
                extends_bytes(output@, old(output)@),
            decreases
                    if self.returned <= self.position {
                        self.position - self.returned
                    } else {
                        WINDOW_SIZE - self.returned + self.position
                    },
        {
            let ghost before = output@;
            let ghost b = self.window@[self.returned as int];
            let ghost rest = given_out(
                self.window@,
                (self.returned + 1) % (WINDOW_SIZE as int),
                self.position as int,
            );
            output.push(self.window[self.returned]);
            proof {
                lemma_extends_bytes_push(before, self.window@[self.returned as int], old(output)@);
                assert(output@ =~= old(output)@ + (done + seq![b]));
                assert((done + seq![b]) + rest =~= done + (seq![b] + rest));
                done = done + seq![b];
            }
            self.returned = mod_window(self.returned + 1);
        }
        proof {
            assert(done + Seq::<u8>::empty() =~= done);
        }
    }

    /// Expand a group of eight literals or matches.  `token` holds the
    /// flags.
    fn process_group(&mut self, token: u8) -> (r: Result<(), Error>)
        requires
            old(self).wf(),
        ensures
            final(self).wf(),
            match group_from(old(self)@, token, 0) {
                Ok(v) => r is Ok && final(self)@ == v,
                Err(e) => r == Err::<(), Error>(e),
            },
            final(self).remaining() <= old(self).remaining(),
            r matches Err(e) ==> e == Error::UnexpectedEof || e == Error::CodeTooLong,
    {
        let ghost goal = group_from(self@, token, 0);
        let mut mask: u8 = 0x80;
        let mut i: usize = 0;
        while i < 8
            invariant
                i <= 8,
                i < 8 ==> mask == weight(i as u8),
                self.wf(),
                goal == group_from(old(self)@, token, 0),
                goal == group_from(self@, token, i as int),
                self.remaining() <= old(self).remaining(),
            decreases 8 - i,
        {
            proof {
                lemma_mask_ops(token, i as u8);
            }
            if token & mask == 0 {
                // A zero bit marks a match: one byte that holds its
                // length.
                let mblen = match self.inner.read_byte() {
                    Ok(b) => b,
                    Err(e) => {
                        return Err(e);
                    },
                };
                match mblen {
                    None => {
                        self.eof = true;
                        return Ok(());
                    },
                    Some(alen) => {
                        let len = alen as usize + MIN_MATCH_LEN;
                        let hsh = hash_of(&self.context);
                        let pos = self.hashtab[hsh];
                        assert(self.hashtab@[hsh as int] < WINDOW_SIZE);
                        let ghost before_copy = self.window@;
                        let ghost here = self@;
                        let mut k: usize = 0;
                        while k < len
                            invariant
                                k <= len <= MAX_MATCH_LEN,
                                pos < WINDOW_SIZE,
                                self.wf(),
                                self@ == (ReaderView {
                                    window: copied(
                                        before_copy,
                                        pos as int,
                                        self.position as int,
                                        k as nat,
                                    ),
                                    ..here
                                }),
                                self.remaining() <= old(self).remaining(),
                            decreases len - k,
                        {
                            let b = self.window[mod_window(pos + k)];
                            self.window.set(mod_window(self.position + k), b);
                            k += 1;
                        }
                        let ghost before = self.hashtab@;
                        self.hashtab.set(hsh, self.position);
                        proof {
                            assert forall|i: int| 0 <= i < HASHTAB_SIZE implies
                                #[trigger] self.hashtab@[i] < WINDOW_SIZE by {
                                assert(before[i] < WINDOW_SIZE);
                            }
                        }
                        self.position = mod_window(self.position + len);
                    },
                }
            } else {
                // A one bit marks a literal: the next byte goes into the
                // window.
                match self.inner.read_byte() {
                    Ok(Some(lit)) => {
                        self.window.set(self.position, lit);
                        self.position = mod_window(self.position + 1);
                    },
                    Ok(None) => {
                        // The end here means a broken stream: the
                        // compressor does not put a one bit into the flags
                        // when the stream ends.
                        self.eof = true;
                        return Err(Error::UnexpectedEof);
                    },
                    Err(e) => {
                        return Err(e);
                    },
                }
            }
            self.update_context();
            mask = mask >> 1;
            i += 1;
        }
        Ok(())
    }

    /// Take the three bytes before the position as the context.
    fn update_context(&mut self)
        requires
            old(self).wf(),
        ensures
            final(self).wf(),
            final(self).context@ == context_at(old(self).window@, old(self).position as int),
            final(self).inner == old(self).inner,
            final(self).window == old(self).window,
            final(self).hashtab == old(self).hashtab,
            final(self).position == old(self).position,
            final(self).returned == old(self).returned,
            final(self).eof == old(self).eof,
    {
        let start = if self.position >= MAX_CONTEXT {
            self.position - MAX_CONTEXT
        } else {
            WINDOW_SIZE - (MAX_CONTEXT - self.position)
        };
        let mut i: usize = 0;
        while i < MAX_CONTEXT
            invariant
                i <= MAX_CONTEXT,
                start <= WINDOW_SIZE,
                self.wf(),
                start == context_start(old(self).position as int),
                forall|j: int|
                    0 <= j < i ==> self.context@[j] == context_at(
                        old(self).window@,
                        old(self).position as int,
                    )[j],
                self.inner == old(self).inner,
                self.window == old(self).window,
                self.hashtab == old(self).hashtab,
                self.position == old(self).position,
                self.returned == old(self).returned,
                self.eof == old(self).eof,
            decreases MAX_CONTEXT - i,
        {
            let b = self.window[mod_window(start + i)];
            self.context.set(i, b);
            i += 1;
        }
        proof {
            assert(self.context@ =~= context_at(old(self).window@, old(self).position as int));
        }
    }

    /// Expand the whole stream and append the bytes that it stands for to
    /// `output`.  Returns the number of bytes appended.  Fails where the
    /// stream ends within a group or within the code of a byte.
    pub fn read_to_end(&mut self, output: &mut Vec<u8>) -> (r: Result<usize, Error>)
        requires
            old(self).wf(),
        ensures
            final(self).wf(),
            !old(self).at_eof() ==> match expanded(
                ReaderView { returned: old(self)@.position, ..old(self)@ },
            ) {
                Ok(s) => r is Ok && final(output)@ == old(output)@ + given_out(
                    old(self)@.window,
                    old(self)@.returned as int,
                    old(self)@.position as int,
                ) + s,
                Err(e) => r == Err::<usize, Error>(e),
            },
            old(self).at_eof() ==> r == Ok::<usize, Error>(0) && final(output)@ == old(output)@,
            r matches Ok(n) ==> final(self).at_eof() && final(output)@.len() == old(output)@.len()
                + n,
            extends_bytes(final(output)@, old(output)@),
            r matches Err(e) ==> e == Error::UnexpectedEof || e == Error::CodeTooLong,
    {
        let begin: usize = output.len();
        proof {
            lemma_extends_bytes_self(output@);
        }
        if self.eof {
            return Ok(0);
        }
        // Give out what was expanded before and not given out.
        self.copy_out(output);
        let ghost goal = expanded(self@);
        let ghost first = output@;
        let ghost mut done: Seq<u8> = Seq::empty();
        proof {
            assert(first + done =~= first);
            assert(behind(done, goal) == goal) by {
                if goal is Ok {
                    assert(done + goal->Ok_0 =~= goal->Ok_0);
                }
            }
        }
        loop
            invariant
                self.wf(),
                begin == old(output)@.len(),
                first == old(output)@ + given_out(
                    old(self)@.window,
                    old(self)@.returned as int,
                    old(self)@.position as int,
                ),
                output@ == first + done,
                !old(self).at_eof(),
                goal == expanded(ReaderView { returned: old(self)@.position, ..old(self)@ }),
                goal == behind(done, expanded(self@)),
                extends_bytes(output@, old(output)@),
            decreases self.remaining(),
        {
            let ghost here = self@;
            proof {
                lemma_expanded(here);
            }
            let token = match self.inner.read_byte() {
                Ok(Some(token)) => token,
                Ok(None) => {
                    self.eof = true;
                    proof {
                        assert(done + Seq::<u8>::empty() =~= done);
                    }
                    return Ok(output.len() - begin);
                },
                Err(e) => {
                    return Err(e);
                },
            };
            match self.process_group(token) {
                Ok(()) => {},
                Err(e) => {
                    return Err(e);
                },
            }
            let ghost mid = output@;
            let ghost w = self@;
            self.copy_out(output);
            proof {
                lemma_extends_bytes_trans(output@, mid, old(output)@);
                let piece = given_out(w.window, w.returned as int, w.position as int);
                let next = expanded(self@);
                assert(expanded(here) == behind(piece, next));
                assert(output@ =~= first + (done + piece));
                assert(goal == behind(done + piece, next)) by {
                    if next is Ok {
                        assert(done + (piece + next->Ok_0) =~= (done + piece) + next->Ok_0);
                    }
                }
                done = done + piece;
            }
        }
    }
}

/// Compress `input` and append the compressed data to `output`.  Fails
/// where the Huffman tree gets into a shape that cannot be coded.
pub fn compress(input: &[u8], output: Vec<u8>) -> (r: Result<Vec<u8>, Error>)
    ensures
        match compressed(output@, input@) {
            Some(bytes) => r matches Ok(out) && out@ == bytes,
            None => r matches Err(e) && e == Error::CodeTooLong,
        },
        r matches Err(e) ==> e == Error::CodeTooLong,
{
    let mut cw = Writer::new(output);
    match cw.write(input) {
        Ok(_) => {},
        Err(e) => {
            return Err(e);
        },
    }
    match cw.flush() {
        Ok(()) => {},
        Err(e) => {
            return Err(e);
        },
    }
    Ok(cw.to_inner())
}

/// Decompress the data in `input` and append the decompressed bytes to
/// `output`.  Fails where the stream ends within a group or within the code
/// of a byte.
pub fn decompress(input: &[u8], output: Vec<u8>) -> (r: Result<Vec<u8>, Error>)
    ensures
        match decoded(input@) {
            Ok(s) => r matches Ok(out) && out@ == output@ + s,
            Err(e) => r matches Err(x) && x == e,
        },
        r matches Ok(out) ==> extends_bytes(out@, output@),
        r matches Err(e) ==> e == Error::UnexpectedEof || e == Error::CodeTooLong,
{
    let mut out = output;
    let mut cr = Reader::new(input);
    proof {
        assert(out@ + given_out(cr@.window, 0, 0) =~= out@);
    }
    match cr.read_to_end(&mut out) {
        Ok(_) => Ok(out),
        Err(e) => Err(e),
    }
}

} // verus!
