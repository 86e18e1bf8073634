//! A block coder in the format of an LZP compressor.
//!
//! The compressed stream is a sequence of blocks.  A block starts with its
//! length in four bytes, the lowest first, and goes on with groups of up to
//! eight items.  A group starts with a byte of flags, one bit per item from
//! the highest bit down: a one marks a literal, which takes one byte, a
//! zero a match.  The compressor writes literals only; the decompressor
//! takes a zero flag for the end of the stream.

use vstd::prelude::*;
use crate::error::Error;

verus! {

/// The largest number of bytes that a block holds.
pub const MAX_BLOCK_SIZE: usize = 65536;

/// The number of bytes from which on a block is written.
pub const MIN_BLOCK_SIZE: usize = 16384;

pub const LENGTH_BITS: usize = 8;

pub const MAX_MATCH_LEN: usize = 256;

/// The number of items of a group.
pub const GROUP: usize = 8;

/// The state of a compressor: the compressed bytes, the bytes that wait for
/// their block, and the group that is being filled: its flags, and its
/// items.
pub struct WriterView {
    pub out: Seq<u8>,
    pub block: Seq<u8>,
    pub flags: u8,
    pub items: Seq<u8>,
}

/// The state is in order.
pub open spec fn writer_ok(v: WriterView) -> bool {
    v.items.len() <= GROUP && v.block.len() < MIN_BLOCK_SIZE
}

/// The flags of a group of `count` items as they are written: moved up to
/// the highest bits.
pub open spec fn aligned(flags: u8, count: int) -> u8 {
    if count < 8 {
        flags << ((8 - count) as u8)
    } else {
        flags
    }
}

/// The state after the group that is being filled was written.
pub open spec fn group_flushed(v: WriterView) -> WriterView {
    if v.items.len() > 0 {
        WriterView {
            out: v.out + seq![aligned(v.flags, v.items.len() as int)] + v.items,
            flags: 0,
            items: Seq::empty(),
            ..v
        }
    } else {
        v
    }
}

/// The state in which the group has room for an item.
pub open spec fn with_room(v: WriterView) -> WriterView {
    if v.items.len() == GROUP {
        group_flushed(v)
    } else {
        v
    }
}

/// The state after the literal `lit` was added to the group.
pub open spec fn lit_emitted(v: WriterView, lit: u8) -> WriterView {
    WriterView {
        flags: (with_room(v).flags << 1) | 1,
        items: with_room(v).items.push(lit),
        ..with_room(v)
    }
}

/// The state after a match of length `len` was added to the group.
pub open spec fn match_emitted(v: WriterView, len: u8) -> WriterView {
    WriterView {
        flags: with_room(v).flags << 1,
        items: with_room(v).items.push(len),
        ..with_room(v)
    }
}

/// The state after the literals `lits` were added.
pub open spec fn lits_emitted(v: WriterView, lits: Seq<u8>) -> WriterView
    decreases lits.len(),
{
    if lits.len() == 0 {
        v
    } else {
        lit_emitted(lits_emitted(v, lits.drop_last()), lits.last())
    }
}

/// The four bytes of a block length, the lowest first.
pub open spec fn length_bytes(n: u32) -> Seq<u8> {
    seq![
        (n & 0xff) as u8,
        ((n >> 8) & 0xff) as u8,
        ((n >> 16) & 0xff) as u8,
        ((n >> 24) & 0xff) as u8,
    ]
}

/// The state after the bytes that wait were written as a block.
pub open spec fn block_written(v: WriterView) -> WriterView {
    WriterView {
        block: Seq::empty(),
        ..group_flushed(
            lits_emitted(
                WriterView { out: v.out + length_bytes(v.block.len() as u32), ..v },
                v.block,
            ),
        )
    }
}

/// The state after the block was written, where it is large enough or the
/// last one.
pub open spec fn block_processed(v: WriterView, final_block: bool) -> WriterView {
    if v.block.len() >= MIN_BLOCK_SIZE || final_block {
        block_written(v)
    } else {
        v
    }
}

/// The state after the bytes of `buf` were taken in, a block being written
/// whenever enough bytes wait.
pub open spec fn written(v: WriterView, buf: Seq<u8>) -> WriterView
    decreases buf.len(),
{
    if buf.len() == 0 {
        v
    } else if buf.len() <= MAX_BLOCK_SIZE - v.block.len() {
        block_processed(WriterView { block: v.block + buf, ..v }, false)
    } else if v.block.len() >= MAX_BLOCK_SIZE {
        v
    } else {
        written(
            block_processed(
                WriterView { block: v.block + buf.take(MAX_BLOCK_SIZE - v.block.len()), ..v },
                false,
            ),
            buf.skip(MAX_BLOCK_SIZE - v.block.len()),
        )
    }
}

/// Adding literals leaves the bytes that wait alone and the group within
/// its size.
pub proof fn lemma_lits_emitted(v: WriterView, lits: Seq<u8>)
    requires
        v.items.len() <= GROUP,
    ensures
        lits_emitted(v, lits).items.len() <= GROUP,
        lits_emitted(v, lits).block == v.block,
    decreases lits.len(),
{
    if lits.len() > 0 {
        lemma_lits_emitted(v, lits.drop_last());
    }
}

/// A compressor that writes blocks of literals.
pub struct Writer {
    inner: Vec<u8>,
    block: Vec<u8>,
    out_flags: u8,
    out_count: usize,
    out_data: Vec<u8>,
    out_len: usize,
}

impl Writer {
    /// The state of the compressor.
    pub closed spec fn view(&self) -> WriterView {
        WriterView {
            out: self.inner@,
            block: self.block@,
            flags: self.out_flags,
            items: self.out_data@.subrange(1, self.out_len as int),
        }
    }

    /// The compressor's representation is consistent.
    pub closed spec fn inv(&self) -> bool {
        &&& self.out_data@.len() == 1 + GROUP
        &&& self.out_len == self.out_count + 1
        &&& self.out_count <= GROUP
    }

    /// The compressor is in order.
    pub open spec fn wf(&self) -> bool {
        self.inv() && writer_ok(self@)
    }

    /// Create a new compressor that appends to `inner`.
    pub fn new(inner: Vec<u8>) -> (w: Writer)
        ensures
            w.wf(),
            w@ == (WriterView { out: inner@, block: Seq::empty(), flags: 0, items: Seq::empty() }),
    {
        let mut out_data: Vec<u8> = Vec::new();
        let mut i: usize = 0;
        while i < 1 + GROUP
            invariant
                i <= 1 + GROUP,
                out_data@.len() == i,
            decreases 1 + GROUP - i,
        {
            out_data.push(0);
            i += 1;
        }
        let w = Writer {
            inner: inner,
            block: Vec::with_capacity(MIN_BLOCK_SIZE),
            out_flags: 0,
            out_count: 0,
            out_data: out_data,
            out_len: 1,
        };
        assert(w@.items =~= Seq::<u8>::empty());
        w
    }

    /// Write the group that is being filled, if it holds an item.
    fn emit_flush(&mut self) -> (r: Result<(), Error>)
        requires
            old(self).inv(),
        ensures
            r is Ok,
            final(self).inv(),
            final(self)@ == group_flushed(old(self)@),
            final(self)@.items.len() == 0,
    {
        if self.out_count > 0 {
            if self.out_count < 8 {
                self.out_flags = self.out_flags << ((8 - self.out_count) as u8);
            }
            self.out_data.set(0, self.out_flags);
            let mut i: usize = 0;
            while i < self.out_len
                invariant
                    i <= self.out_len,
                    self.inv(),
                    self.out_len == old(self).out_len,
                    self.block == old(self).block,
                    self.out_data@[0] == aligned(old(self).out_flags, old(self).out_count as int),
                    self.out_data@.subrange(1, self.out_len as int) == old(self)@.items,
                    self.inner@ == old(self).inner@ + self.out_data@.subrange(0, i as int),
                decreases self.out_len - i,
            {
                self.inner.push(self.out_data[i]);
                proof {
                    assert(self.out_data@.subrange(0, i + 1) =~= self.out_data@.subrange(
                        0,
                        i as int,
                    ).push(self.out_data@[i as int]));
                }
                i += 1;
            }
            proof {
                assert(self.out_data@.subrange(0, self.out_len as int) =~= seq![
                    aligned(old(self).out_flags, old(self).out_count as int),
                ] + old(self)@.items);
            }

            self.out_flags = 0;
            self.out_count = 0;
            self.out_len = 1;
            proof {
                assert(self@.items =~= Seq::<u8>::empty());
                assert(self@.out =~= group_flushed(old(self)@).out);
            }
        } else {
            proof {
                assert(self@.items.len() == 0);
            }
        }
        Ok(())
    }

    /// Add the literal `lit` to the group.
    fn emit_lit(&mut self, lit: u8) -> (r: Result<(), Error>)
        requires
            old(self).inv(),
        ensures
            r is Ok,
            final(self).inv(),
            final(self)@ == lit_emitted(old(self)@, lit),
    {
        if self.out_count == 8 {
            let _ = self.emit_flush();
        }
        let ghost room = self@;
        self.out_count += 1;
        self.out_flags = (self.out_flags << 1) | 1;
        self.out_data.set(self.out_len, lit);
        self.out_len += 1;
        proof {
            assert(self@.items =~= room.items.push(lit));
        }
        Ok(())
    }

    /// Add a match of length `len` to the group.
    pub fn emit_match(&mut self, len: u8) -> (r: Result<(), Error>)
        requires
            old(self).wf(),
        ensures
            r is Ok,
            final(self).wf(),
            final(self)@ == match_emitted(old(self)@, len),
    {
        if self.out_count == 8 {
            let _ = self.emit_flush();
        }
        let ghost room = self@;
        self.out_count += 1;
        self.out_flags = self.out_flags << 1;
        self.out_data.set(self.out_len, len);
        self.out_len += 1;
        proof {
            assert(self@.items =~= room.items.push(len));
        }
        Ok(())
    }

    /// Write the bytes that wait as a block, where they are enough for one
    /// or the block is the last.
    fn process_block(&mut self, final_block: bool) -> (r: Result<(), Error>)
        requires
            old(self).inv(),
            old(self)@.block.len() <= MAX_BLOCK_SIZE,
        ensures
            r is Ok,
            final(self).wf(),
            final(self)@ == block_processed(old(self)@, final_block),
    {
        if self.block.len() >= MIN_BLOCK_SIZE || final_block {
            let bsz = self.block.len() as u32;
            self.inner.push((bsz & 0xff) as u8);
            self.inner.push(((bsz >> 8) & 0xff) as u8);
            self.inner.push(((bsz >> 16) & 0xff) as u8);
            self.inner.push(((bsz >> 24) & 0xff) as u8);
            let ghost start = self@;
            proof {
                assert(start.out =~= old(self)@.out + length_bytes(bsz));
            }

            let mut position: usize = 0;
            while position < self.block.len()
                invariant
                    position <= self.block@.len(),
                    self.inv(),
                    self.block@ == old(self).block@,
                    start.items.len() <= GROUP,
                    self@ == lits_emitted(start, self.block@.take(position as int)),
                decreases self.block@.len() - position,
            {
                proof {
                    assert(self.block@.take(position + 1).drop_last() =~= self.block@.take(
                        position as int,
                    ));
                    lemma_lits_emitted(start, self.block@.take(position as int));
                }
                let lit = self.block[position];
                let _ = self.emit_lit(lit);
                position += 1;
            }
            proof {
                assert(self.block@.take(position as int) =~= self.block@);
            }

            self.block.truncate(0);
            let _ = self.emit_flush();
            proof {
                assert(self@.block =~= Seq::<u8>::empty());
            }
        }
        Ok(())
    }

    /// Give up the compressor for the buffer it wrote to.
    pub fn to_inner(self) -> (inner: Vec<u8>)
        ensures
            inner@ == self@.out,
    {
        self.inner
    }

    /// Take in the bytes of `buf`, writing a block whenever enough bytes
    /// wait, and return the number of bytes taken in.
    pub fn write(&mut self, buf: &[u8]) -> (r: Result<usize, Error>)
        requires
            old(self).wf(),
        ensures
            r == Ok::<usize, Error>(buf@.len() as usize),
            final(self).wf(),
            final(self)@ == written(old(self)@, buf@),
    {
        let mut written: usize = 0;
        let n: usize = buf.len();
        proof {
            assert(buf@.skip(0) =~= buf@);
        }
        while written < buf.len()
            invariant
                written <= buf@.len(),
                n == buf@.len(),
                self.wf(),
                crate::lzp::written(self@, buf@.skip(written as int)) == crate::lzp::written(
                    old(self)@,
                    buf@,
                ),
            decreases buf@.len() - written,
        {
            let ghost here = self@;
            let ghost rest = buf@.skip(written as int);
            let room = MAX_BLOCK_SIZE - self.block.len();
            let sz = if room < buf.len() - written {
                room
            } else {
                buf.len() - written
            };
            let mut i: usize = 0;
            while i < sz
                invariant
                    i <= sz,
                    n == buf@.len(),
                    written + sz <= buf@.len(),
                    sz <= MAX_BLOCK_SIZE - here.block.len(),
                    self.inv(),
                    self@ == (WriterView {
                        block: here.block + buf@.subrange(written as int, written + i),
                        ..here
                    }),
                decreases sz - i,
            {
                self.block.push(buf[written + i]);
                proof {
                    assert(self@.block =~= here.block + buf@.subrange(
                        written as int,
                        written + i + 1,
                    ));
                }
                i += 1;
            }
            proof {
                assert(buf@.subrange(written as int, written + sz) =~= rest.take(sz as int));
                assert(rest.skip(sz as int) =~= buf@.skip(written + sz));
                if sz == rest.len() {
                    assert(rest.take(sz as int) =~= rest);
                }
            }
            written += sz;
            let _ = self.process_block(false);
        }
        Ok(written)
    }

    /// Write the bytes that wait as the last block.
    pub fn flush(&mut self) -> (r: Result<(), Error>)
        requires
            old(self).wf(),
        ensures
            r is Ok,
            final(self).wf(),
            final(self)@ == block_written(old(self)@),
    {
        self.process_block(true)
    }
}

/// How the reading of a group ends.
#[derive(Clone, Copy, PartialEq, Eq, Structural)]
pub enum Outcome {
    /// The group was read; another may follow.
    More,
    /// The stream ended within the group, at a zero flag.
    End,
    /// The stream is broken: a literal is missing, or a match stands where
    /// none is expected.
    Fail,
}

/// Whether item `n` of a group with the flags `token` is a literal that
/// can be read, the items before it having been read.
pub open spec fn lit_read(input: Seq<u8>, token: u8, n: nat) -> bool
    decreases n, 1nat,
{
    group_outcome(input, token, n) == Outcome::More && crate::bits::byte_bit(token, n as int)
        && group_used(input, token, n) < input.len()
}

/// How the reading of the first `n` items of a group with the flags
/// `token` ends, whose items stand in `input`.
pub open spec fn group_outcome(input: Seq<u8>, token: u8, n: nat) -> Outcome
    decreases n, 0nat,
{
    if n == 0 {
        Outcome::More
    } else if group_outcome(input, token, (n - 1) as nat) != Outcome::More {
        group_outcome(input, token, (n - 1) as nat)
    } else if crate::bits::byte_bit(token, n - 1) {
        if group_used(input, token, (n - 1) as nat) < input.len() {
            Outcome::More
        } else {
            Outcome::Fail
        }
    } else {
        if group_used(input, token, (n - 1) as nat) < input.len() {
            Outcome::Fail
        } else {
            Outcome::End
        }
    }
}

/// The number of bytes that the first `n` items of a group take.
pub open spec fn group_used(input: Seq<u8>, token: u8, n: nat) -> nat
    decreases n, 0nat,
{
    if n == 0 {
        0
    } else if lit_read(input, token, (n - 1) as nat) {
        group_used(input, token, (n - 1) as nat) + 1
    } else {
        group_used(input, token, (n - 1) as nat)
    }
}

/// The literals among the first `n` items of a group.
pub open spec fn group_lits(input: Seq<u8>, token: u8, n: nat) -> Seq<u8>
    decreases n,
{
    if n == 0 {
        Seq::empty()
    } else if lit_read(input, token, (n - 1) as nat) {
        group_lits(input, token, (n - 1) as nat).push(
            input[group_used(input, token, (n - 1) as nat) as int],
        )
    } else {
        group_lits(input, token, (n - 1) as nat)
    }
}

/// The length that the first four bytes of `input` spell, the lowest byte
/// first.
pub open spec fn block_length(input: Seq<u8>) -> int {
    input[0] + input[1] * 0x100 + input[2] * 0x1_0000 + input[3] * 0x100_0000
}

/// The bytes that the stream in `input` stands for, up to its end or to the
/// group at which it breaks.  `in_block` says whether the decompressor is
/// within a block, `position` how many bytes of the block it has read and
/// `length` how many the block has.
pub open spec fn parsed(input: Seq<u8>, in_block: bool, position: int, length: int) -> Seq<u8>
    decreases input.len(), if in_block { 0nat } else { 1nat },
{
    if input.len() == 0 {
        Seq::empty()
    } else if !in_block {
        if input.len() < 4 {
            Seq::empty()
        } else {
            parsed(input.skip(4), true, 0, block_length(input))
        }
    } else {
        match group_outcome(input.skip(1), input[0], GROUP as nat) {
            Outcome::Fail => Seq::empty(),
            Outcome::End => group_lits(input.skip(1), input[0], GROUP as nat),
            Outcome::More => group_lits(input.skip(1), input[0], GROUP as nat) + parsed(
                input.skip(1 + group_used(input.skip(1), input[0], GROUP as nat) as int),
                position + group_lits(input.skip(1), input[0], GROUP as nat).len() != length,
                position + group_lits(input.skip(1), input[0], GROUP as nat).len(),
                length,
            ),
        }
    }
}

/// Whether the stream in `input` is broken.
pub open spec fn broken(input: Seq<u8>, in_block: bool, position: int, length: int) -> bool
    decreases input.len(), if in_block { 0nat } else { 1nat },
{
    if input.len() == 0 {
        false
    } else if !in_block {
        if input.len() < 4 {
            true
        } else {
            broken(input.skip(4), true, 0, block_length(input))
        }
    } else {
        match group_outcome(input.skip(1), input[0], GROUP as nat) {
            Outcome::Fail => true,
            Outcome::End => false,
            Outcome::More => broken(
                input.skip(1 + group_used(input.skip(1), input[0], GROUP as nat) as int),
                position + group_lits(input.skip(1), input[0], GROUP as nat).len() != length,
                position + group_lits(input.skip(1), input[0], GROUP as nat).len(),
                length,
            ),
        }
    }
}

/// The items of a group take no more bytes than there are, one per
/// literal.
pub proof fn lemma_group(input: Seq<u8>, token: u8, n: nat)
    ensures
        group_used(input, token, n) <= input.len(),
        group_used(input, token, n) <= n,
        group_outcome(input, token, n) == Outcome::More ==> group_lits(input, token, n).len()
            == group_used(input, token, n),
        group_lits(input, token, n).len() <= n,
    decreases n,
{
    if n > 0 {
        lemma_group(input, token, (n - 1) as nat);
        assert(lit_read(input, token, (n - 1) as nat) ==> group_used(input, token, (n - 1) as nat)
            < input.len());
        assert(group_outcome(input, token, n) == Outcome::More ==> (lit_read(
            input,
            token,
            (n - 1) as nat,
        ) && group_outcome(input, token, (n - 1) as nat) == Outcome::More));
    }
}

/// A decompressor for blocks of literals.
pub struct Reader<'a> {
    inner: &'a [u8],
    pos: usize,
    in_block: bool,
    position: usize,
    block_length: usize,
    eof: bool,
}

impl<'a> Reader<'a> {
    /// The compressed bytes that the decompressor has not read.
    pub closed spec fn input(&self) -> Seq<u8> {
        self.inner@.skip(self.pos as int)
    }

    /// Whether the decompressor is within a block.
    pub closed spec fn in_block(&self) -> bool {
        self.in_block
    }

    /// The number of bytes of the block that were read.
    pub closed spec fn position(&self) -> int {
        self.position as int
    }

    /// The number of bytes that the block has.
    pub closed spec fn length(&self) -> int {
        self.block_length as int
    }

    /// Whether the decompressor has found the end of the stream.
    pub closed spec fn at_eof(&self) -> bool {
        self.eof
    }

    /// The decompressor is in order.
    pub closed spec fn wf(&self) -> bool {
        &&& self.pos <= self.inner@.len() <= usize::MAX
        &&& self.in_block ==> self.position + self.input().len() <= usize::MAX
    }

    /// Create a new decompressor for the data in `inner`.
    pub fn new(inner: &'a [u8]) -> (r: Reader<'a>)
        ensures
            r.wf(),
            r.input() == inner@,
            !r.in_block(),
            !r.at_eof(),
    {
        let _ = inner.len();
        assert(inner@.skip(0) =~= inner@);
        Reader { inner: inner, pos: 0, in_block: false, position: 0, block_length: 0, eof: false }
    }

    /// The next byte of the input, or `None` at its end.
    fn getc(&mut self) -> (r: Result<Option<u8>, Error>)
        requires
            old(self).pos <= old(self).inner@.len() <= usize::MAX,
        ensures
            final(self).pos <= final(self).inner@.len() <= usize::MAX,
            final(self).in_block == old(self).in_block,
            final(self).position == old(self).position,
            final(self).block_length == old(self).block_length,
            final(self).eof == old(self).eof,
            old(self).input().len() > 0 ==> r == Ok::<Option<u8>, Error>(
                Some(old(self).input()[0]),
            ) && final(self).input() == old(self).input().skip(1),
            old(self).input().len() == 0 ==> r == Ok::<Option<u8>, Error>(None) && final(self).input() == old(self).input(),
    {
        if self.pos < self.inner.len() {
            let b = self.inner[self.pos];
            proof {
                assert(self.inner@.skip(self.pos as int).skip(1) =~= self.inner@.skip(
                    self.pos + 1,
                ));
            }
            self.pos += 1;
            Ok(Some(b))
        } else {
            Ok(None)
        }
    }

    /// Read the items of a group with the flags `token` and append its
    /// literals to `output`.
    fn process_group(&mut self, token: u8, output: &mut Vec<u8>) -> (r: Outcome)
        requires
            old(self).pos <= old(self).inner@.len() <= usize::MAX,
            old(self).position + old(self).input().len() <= usize::MAX,
        ensures
            final(self).pos <= final(self).inner@.len() <= usize::MAX,
            final(self).in_block == old(self).in_block,
            final(self).block_length == old(self).block_length,
            r == group_outcome(old(self).input(), token, GROUP as nat),
            r != Outcome::Fail ==> final(output)@ == old(output)@ + group_lits(
                old(self).input(),
                token,
                GROUP as nat,
            ),
            r == Outcome::Fail ==> final(output)@ == old(output)@,
            r == Outcome::More ==> final(self).input() == old(self).input().skip(
                group_used(old(self).input(), token, GROUP as nat) as int,
            ) && final(self).position == old(self).position + group_lits(
                old(self).input(),
                token,
                GROUP as nat,
            ).len(),
    {
        let ghost input = self.input();
        let mut mask: u8 = 0x80;
        let mut i: usize = 0;
        let mut lits: Vec<u8> = Vec::new();
        proof {
            assert(input.skip(0) =~= input);
        }
        while i < GROUP
            invariant
                i <= GROUP,
                i < GROUP ==> mask == crate::bits::weight(i as u8),
                self.pos <= self.inner@.len() <= usize::MAX,
                input == old(self).input(),
                self.in_block == old(self).in_block,
                self.block_length == old(self).block_length,
                old(self).position + input.len() <= usize::MAX,
                output@ == old(output)@,
                group_outcome(input, token, i as nat) == Outcome::More,
                lits@ == group_lits(input, token, i as nat),
                self.input() == input.skip(group_used(input, token, i as nat) as int),
                self.position == old(self).position + lits@.len(),
            decreases GROUP - i,
        {
            proof {
                crate::bits::lemma_mask_ops(token, i as u8);
                lemma_group(input, token, i as nat);
                lemma_group(input, token, (i + 1) as nat);
                if group_used(input, token, i as nat) < input.len() {
                    assert(self.input()[0] == input[group_used(input, token, i as nat) as int]);
                }
            }
            if token & mask != 0 {
                match self.getc() {
                    Ok(Some(lit)) => {
                        lits.push(lit);
                        self.position += 1;
                    },
                    _ => {
                        self.eof = true;
                        proof {
                            lemma_outcome_stays(input, token, (i + 1) as nat, GROUP as nat);
                        }
                        return Outcome::Fail;
                    },
                }
            } else {
                match self.getc() {
                    Ok(Some(_)) => {
                        proof {
                            lemma_outcome_stays(input, token, (i + 1) as nat, GROUP as nat);
                        }
                        return Outcome::Fail;
                    },
                    _ => {
                        self.eof = true;
                        proof {
                            lemma_outcome_stays(input, token, (i + 1) as nat, GROUP as nat);
                        }
                        let mut k: usize = 0;
                        while k < lits.len()
                            invariant
                                k <= lits@.len(),
                                output@ == old(output)@ + lits@.take(k as int),
                            decreases lits@.len() - k,
                        {
                            output.push(lits[k]);
                            proof {
                                assert(lits@.take(k + 1) =~= lits@.take(k as int).push(
                                    lits@[k as int],
                                ));
                            }
                            k += 1;
                        }
                        proof {
                            assert(lits@.take(k as int) =~= lits@);
                        }
                        return Outcome::End;
                    },
                }
            }
            mask = mask >> 1;
            i += 1;
        }
        let mut k: usize = 0;
        proof {
            assert(old(output)@ + lits@.take(0) =~= old(output)@);
        }
        while k < lits.len()
            invariant
                k <= lits@.len(),
                output@ == old(output)@ + lits@.take(k as int),
            decreases lits@.len() - k,
        {
            output.push(lits[k]);
            proof {
                assert(lits@.take(k + 1) =~= lits@.take(k as int).push(lits@[k as int]));
            }
            k += 1;
        }
        proof {
            assert(lits@.take(k as int) =~= lits@);
        }
        Outcome::More
    }

    /// Read the stream to its end and append the bytes that it stands for
    /// to `output`.  Returns the number of bytes appended.  Fails where the
    /// stream is broken; the bytes of the groups before the break are
    /// appended all the same.
    pub fn read_to_end(&mut self, output: &mut Vec<u8>) -> (r: Result<usize, Error>)
        requires
            old(self).wf(),
            !old(self).at_eof(),
        ensures
            final(output)@ == old(output)@ + parsed(
                old(self).input(),
                old(self).in_block(),
                old(self).position(),
                old(self).length(),
            ),
            broken(
                old(self).input(),
                old(self).in_block(),
                old(self).position(),
                old(self).length(),
            ) ==> r == Err::<usize, Error>(Error::UnexpectedEof),
            !broken(
                old(self).input(),
                old(self).in_block(),
                old(self).position(),
                old(self).length(),
            ) ==> r == Ok::<usize, Error>(
                parsed(
                    old(self).input(),
                    old(self).in_block(),
                    old(self).position(),
                    old(self).length(),
                ).len() as usize,
            ),
    {
        let start: usize = output.len();
        let ghost goal = parsed(self.input(), self.in_block, self.position(), self.length());
        let ghost fails = broken(self.input(), self.in_block, self.position(), self.length());
        let ghost mut done: Seq<u8> = Seq::empty();
        proof {
            assert(old(output)@ + done =~= old(output)@);
        }
        loop
            invariant
                self.wf(),
                start == old(output)@.len(),
                output@ == old(output)@ + done,
                goal == parsed(
                    old(self).input(),
                    old(self).in_block(),
                    old(self).position(),
                    old(self).length(),
                ),
                fails == broken(
                    old(self).input(),
                    old(self).in_block(),
                    old(self).position(),
                    old(self).length(),
                ),
                goal == done + parsed(
                    self.input(),
                    self.in_block,
                    self.position(),
                    self.length(),
                ),
                fails == broken(self.input(), self.in_block, self.position(), self.length()),
            decreases self.input().len(), if self.in_block { 0nat } else { 1nat },
        {
            let ghost here = self.input();
            let ghost old_position = self.position as int;
            let ghost old_length = self.block_length as int;
            if !self.in_block {
                let b1 = self.getc();
                let b2 = self.getc();
                let b3 = self.getc();
                let b4 = self.getc();
                let block_length = match (b1, b2, b3, b4) {
                    (Ok(None), _, _, _) => {
                        self.eof = true;
                        proof {
                            assert(done + Seq::<u8>::empty() =~= done);
                        }
                        return Ok(output.len() - start);
                    },
                    (Ok(Some(c1)), Ok(Some(c2)), Ok(Some(c3)), Ok(Some(c4))) => {
                        proof {
                            assert(here.skip(1).skip(1).skip(1).skip(1) =~= here.skip(4));
                            assert(here.skip(1)[0] == here[1]);
                            assert(here.skip(1).skip(1)[0] == here[2]);
                            assert(here.skip(1).skip(1).skip(1)[0] == here[3]);
                        }
                        let w1 = c1 as u64;
                        let w2 = c2 as u64;
                        let w3 = c3 as u64;
                        let w4 = c4 as u64;
                        assert(w1 + (w2 << 8) + (w3 << 16) + (w4 << 24) == w1 + w2 * 0x100 + w3
                            * 0x1_0000 + w4 * 0x100_0000 && w1 + (w2 << 8) + (w3 << 16) + (w4
                            << 24) <= 0xffff_ffff) by (bit_vector)
                            requires
                                w1 < 256,
                                w2 < 256,
                                w3 < 256,
                                w4 < 256,
                        ;
                        ((c1 as u64) + ((c2 as u64) << 8) + ((c3 as u64) << 16) + ((c4 as u64)
                            << 24)) as usize
                    },
                    _ => {
                        self.eof = true;
                        proof {
                            assert(done + Seq::<u8>::empty() =~= done);
                        }
                        return Err(Error::UnexpectedEof);
                    },
                };
                self.block_length = block_length;
                self.in_block = true;
                self.position = 0;
                proof {
                    assert(parsed(here, false, old_position, old_length) == parsed(
                        self.input(),
                        true,
                        0,
                        self.block_length as int,
                    ));
                    assert(broken(here, false, old_position, old_length) == broken(
                        self.input(),
                        true,
                        0,
                        self.block_length as int,
                    ));
                }
            }
            let ghost here = self.input();
            let token = match self.getc() {
                Ok(Some(tok)) => tok,
                _ => {
                    self.eof = true;
                    proof {
                        assert(done + Seq::<u8>::empty() =~= done);
                    }
                    return Ok(output.len() - start);
                },
            };
            proof {
                lemma_group(here.skip(1), token, GROUP as nat);
            }
            let ghost before = done;
            match self.process_group(token, output) {
                Outcome::Fail => {
                    proof {
                        assert(done + Seq::<u8>::empty() =~= done);
                    }
                    return Err(Error::UnexpectedEof);
                },
                Outcome::End => {
                    proof {
                        done = done + group_lits(here.skip(1), token, GROUP as nat);
                        assert(output@ =~= old(output)@ + done);
                    }
                    return Ok(output.len() - start);
                },
                Outcome::More => {
                    proof {
                        let lits = group_lits(here.skip(1), token, GROUP as nat);
                        let used = group_used(here.skip(1), token, GROUP as nat);
                        done = done + lits;
                        assert(output@ =~= old(output)@ + done);
                        assert(here.skip(1).skip(used as int) =~= here.skip(1 + used as int));
                        assert(before + (lits + parsed(
                            here.skip(1 + used as int),
                            self.position + 0 != self.block_length,
                            self.position as int,
                            self.block_length as int,
                        )) =~= done + parsed(
                            here.skip(1 + used as int),
                            self.position + 0 != self.block_length,
                            self.position as int,
                            self.block_length as int,
                        ));
                    }
                },
            }
            if self.position == self.block_length {
                self.in_block = false;
            }
        }
    }
}

/// Once the reading of a group has ended, more items change nothing.
pub proof fn lemma_outcome_stays(input: Seq<u8>, token: u8, n: nat, m: nat)
    requires
        n <= m,
        group_outcome(input, token, n) != Outcome::More,
    ensures
        group_outcome(input, token, m) == group_outcome(input, token, n),
        group_lits(input, token, m) == group_lits(input, token, n),
        group_used(input, token, m) == group_used(input, token, n),
    decreases m,
{
    if n < m {
        lemma_outcome_stays(input, token, n, (m - 1) as nat);
    }
}

/// The number of bytes that `compress` hands to the compressor at a time.
pub const CHUNK: usize = 8192;

/// Compress `input`, handing it to a compressor in chunks, and append the
/// compressed data to `output`.
pub fn compress(input: &[u8], output: Vec<u8>) -> (r: Result<Vec<u8>, Error>)
    ensures
        r matches Ok(out) && out@ == block_written(
            chunks_written(
                WriterView { out: output@, block: Seq::empty(), flags: 0, items: Seq::empty() },
                input@,
            ),
        ).out,
{
    let mut cw = Writer::new(output);
    let mut at: usize = 0;
    let ghost start = cw@;
    proof {
        assert(input@.skip(0) =~= input@);
    }
    while at < input.len()
        invariant
            at <= input@.len(),
            cw.wf(),
            chunks_written(cw@, input@.skip(at as int)) == chunks_written(start, input@),
        decreases input@.len() - at,
    {
        let n = if input.len() - at < CHUNK {
            input.len() - at
        } else {
            CHUNK
        };
        let chunk = vstd::slice::slice_subrange(input, at, at + n);
        proof {
            assert(chunk@ =~= input@.skip(at as int).take(n as int));
            assert(input@.skip(at as int).skip(n as int) =~= input@.skip(at + n));
        }
        let _ = cw.write(chunk);
        at += n;
    }
    let _ = cw.flush();
    Ok(cw.to_inner())
}

/// The state after the bytes of `input` were taken in, chunk by chunk.
pub open spec fn chunks_written(v: WriterView, input: Seq<u8>) -> WriterView
    decreases input.len(),
{
    if input.len() == 0 {
        v
    } else if input.len() < CHUNK {
        written(v, input)
    } else {
        chunks_written(written(v, input.take(CHUNK as int)), input.skip(CHUNK as int))
    }
}

/// Decompress the data in `input` and append the decompressed bytes to
/// `output`.  Fails where the stream is broken.
pub fn decompress(input: &[u8], output: Vec<u8>) -> (r: Result<Vec<u8>, Error>)
    ensures
        !broken(input@, false, 0, 0) ==> (r matches Ok(out) && out@ == output@ + parsed(
            input@,
            false,
            0,
            0,
        )),
        broken(input@, false, 0, 0) ==> (r matches Err(e) && e == Error::UnexpectedEof),
{
    let mut out = output;
    let mut cr = Reader::new(input);
    match cr.read_to_end(&mut out) {
        Ok(_) => Ok(out),
        Err(e) => Err(e),
    }
}

} // verus!
