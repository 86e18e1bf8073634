//! An LZ77 compressor over a sliding window.
//!
//! The compressed stream is a sequence of groups of up to eight items.  A
//! group starts with a byte of flags, one bit per item from the highest bit
//! down: a one marks a literal, which takes one byte, a zero a match, which
//! takes two bytes that hold a length of 2 to 17 and an offset of up to 4095
//! bytes back into the data.
//!
//! Which matches the compressor finds depends on its hash table; whatever
//! it finds, the stream that it writes is one that the decompressor expands
//! to the bytes that were taken in.

use vstd::prelude::*;
use crate::bits::{byte_bit, has_weight, lemma_mask_ops, weight};
use crate::error::Error;
use crate::window::SlidingWindow;

verus! {

pub const LENGTH_BITS: usize = 4;

pub const OFFSET_BITS: usize = 12;

/// The shortest match.
pub const MIN_MATCH: usize = 2;

/// The longest match.
pub const MAX_LENGTH: usize = 17;

/// The number of bytes to look back at.
pub const WINDOW_SIZE: usize = 4096;

/// The number of bytes to look ahead to.
pub const LOOK_AHEAD_SIZE: usize = 17;

/// The number of entries of the hash table.
pub const HASHTAB_SIZE: usize = 1024;

/// Marks unused hash table slots.
pub const UNUSED: usize = usize::MAX;

/// The size of the buffer for a group: a byte of flags and two bytes for
/// each of eight items.
pub const MAX_RUN_LENGTH: usize = 17;

/// The length of the match that the bytes `b1` and `b2` hold.
pub open spec fn match_len(b1: u8) -> nat {
    ((b1 as nat) / 16 + MIN_MATCH) as nat
}

/// The offset of the match that the bytes `b1` and `b2` hold.
pub open spec fn match_ofs(b1: u8, b2: u8) -> nat {
    ((b1 as nat) % 16 + (b2 as nat) * 16) as nat
}

/// The data after `n` bytes were appended to it, each a copy of the byte
/// that stands `ofs` bytes before it, or zero where `ofs` is zero.
pub open spec fn copied(data: Seq<u8>, ofs: nat, n: nat) -> Seq<u8>
    decreases n,
{
    if n == 0 {
        data
    } else {
        copied(data, ofs, (n - 1) as nat).push(
            if ofs == 0 {
                0u8
            } else {
                copied(data, ofs, (n - 1) as nat)[copied(data, ofs, (n - 1) as nat).len() - ofs]
            },
        )
    }
}

/// Copying `n` bytes makes the data `n` bytes longer and leaves what was
/// there.
pub proof fn lemma_copied(data: Seq<u8>, ofs: nat, n: nat)
    ensures
        copied(data, ofs, n).len() == data.len() + n,
        copied(data, ofs, n).take(data.len() as int) == data,
    decreases n,
{
    if n > 0 {
        lemma_copied(data, ofs, (n - 1) as nat);
        assert(copied(data, ofs, n).take(data.len() as int) =~= copied(
            data,
            ofs,
            (n - 1) as nat,
        ).take(data.len() as int));
    } else {
        assert(data.take(data.len() as int) =~= data);
    }
}

/// The data that stands after `data` was followed by the expansion of the
/// stream in `input`, of which `left` items of a group with the flags
/// `token` come first.  The expansion ends at the end of the stream or at
/// the item at which the stream is broken.
pub open spec fn expanded(data: Seq<u8>, input: Seq<u8>, token: u8, left: nat) -> Seq<u8>
    decreases input.len(), left,
{
    if input.len() == 0 {
        data
    } else if left == 0 || left > 8 {
        expanded(data, input.skip(1), input[0], 8)
    } else if byte_bit(token, 8 - left) {
        expanded(data.push(input[0]), input.skip(1), token, (left - 1) as nat)
    } else if input.len() == 1 || match_ofs(input[0], input[1]) > data.len() {
        data
    } else {
        expanded(
            copied(data, match_ofs(input[0], input[1]), match_len(input[0])),
            input.skip(2),
            token,
            (left - 1) as nat,
        )
    }
}

/// Whether the stream in `input` is broken: a literal or the second byte of
/// a match is missing, or a match starts before the data.
pub open spec fn broken(data: Seq<u8>, input: Seq<u8>, token: u8, left: nat) -> bool
    decreases input.len(), left,
{
    if input.len() == 0 {
        0 < left <= 8 && byte_bit(token, 8 - left)
    } else if left == 0 || left > 8 {
        broken(data, input.skip(1), input[0], 8)
    } else if byte_bit(token, 8 - left) {
        broken(data.push(input[0]), input.skip(1), token, (left - 1) as nat)
    } else if input.len() == 1 || match_ofs(input[0], input[1]) > data.len() {
        true
    } else {
        broken(
            copied(data, match_ofs(input[0], input[1]), match_len(input[0])),
            input.skip(2),
            token,
            (left - 1) as nat,
        )
    }
}

/// The stream `stream` is whole and stands for `data`.
pub open spec fn decodes_to(stream: Seq<u8>, data: Seq<u8>) -> bool {
    expanded(Seq::empty(), stream, 0, 0) == data && !broken(Seq::empty(), stream, 0, 0)
}

/// One item of a compressed stream.
pub enum Item {
    /// A byte that stands for itself.
    Literal(u8),
    /// A copy of earlier bytes, by its offset and its length.
    Match(nat, nat),
}

/// The bytes that an item takes in the stream.
pub open spec fn bytes_for(item: Item) -> Seq<u8> {
    match item {
        Item::Literal(b) => seq![b],
        Item::Match(ofs, len) => seq![
            ((len - MIN_MATCH) * 16 + ofs % 16) as u8,
            (ofs / 16) as u8,
        ],
    }
}

/// The item can follow `n` bytes of data: a match does not start before
/// the data, and its offset and length can be written down.
pub open spec fn item_ok(n: nat, item: Item) -> bool {
    match item {
        Item::Literal(_) => true,
        Item::Match(ofs, len) => 0 < ofs <= n && ofs < WINDOW_SIZE && MIN_MATCH <= len
            <= MAX_LENGTH,
    }
}

/// The data followed by what the item stands for.
pub open spec fn grown(data: Seq<u8>, item: Item) -> Seq<u8> {
    match item {
        Item::Literal(b) => data.push(b),
        Item::Match(ofs, len) => copied(data, ofs, len),
    }
}

/// The data followed by what the items stand for.
pub open spec fn applied(data: Seq<u8>, items: Seq<Item>) -> Seq<u8>
    decreases items.len(),
{
    if items.len() == 0 {
        data
    } else {
        grown(applied(data, items.drop_last()), items.last())
    }
}

/// Each of the items can follow the data and the items before it.
pub open spec fn all_ok(data: Seq<u8>, items: Seq<Item>) -> bool
    decreases items.len(),
{
    items.len() == 0 || (all_ok(data, items.drop_last()) && item_ok(
        applied(data, items.drop_last()).len(),
        items.last(),
    ))
}

/// The bytes that the items take in the stream, without their flags.
pub open spec fn bytes_of(items: Seq<Item>) -> Seq<u8>
    decreases items.len(),
{
    if items.len() == 0 {
        Seq::empty()
    } else {
        bytes_of(items.drop_last()) + bytes_for(items.last())
    }
}

/// The byte holds the flags of the items in its lowest bits, the first item
/// highest, and zeros above them.
pub open spec fn low_flags(token: u8, items: Seq<Item>) -> bool {
    forall|j: int|
        0 <= j < 8 ==> #[trigger] byte_bit(token, j) == (j >= 8 - items.len() && items[j - (8
            - items.len())] is Literal)
}

/// The byte holds the flags of the items from its highest bit down, and
/// zeros below them.
pub open spec fn high_flags(token: u8, items: Seq<Item>) -> bool {
    forall|j: int|
        0 <= j < 8 ==> #[trigger] byte_bit(token, j) == (j < items.len() && items[j] is Literal)
}

/// The stream `body` is made of whole groups that stand for `data`: what
/// follows it is expanded as it would be after `data`.
pub open spec fn leads_to(body: Seq<u8>, data: Seq<u8>) -> bool {
    forall|rest: Seq<u8>|
        #![trigger expanded(Seq::empty(), body + rest, 0, 0)]
        #![trigger broken(Seq::empty(), body + rest, 0, 0)]
        expanded(Seq::empty(), body + rest, 0, 0) == expanded(data, rest, 0, 0) && broken(
            Seq::empty(),
            body + rest,
            0,
            0,
        ) == broken(data, rest, 0, 0)
}

/// Where a group starts, the flags of the group before do not count.
pub proof fn lemma_token_free(data: Seq<u8>, rest: Seq<u8>, token: u8)
    ensures
        expanded(data, rest, token, 0) == expanded(data, rest, 0, 0),
        broken(data, rest, token, 0) == broken(data, rest, 0, 0),
{
}

/// The bytes of items whose flags stand in `token`, from the flag that is
/// `left` from the end on, are expanded to what the items stand for.
pub proof fn lemma_items(data: Seq<u8>, items: Seq<Item>, token: u8, left: nat, rest: Seq<u8>)
    requires
        items.len() <= left <= 8,
        all_ok(data, items),
        forall|j: int|
            0 <= j < items.len() ==> #[trigger] byte_bit(token, 8 - left + j)
                == (items[j] is Literal),
    ensures
        expanded(data, bytes_of(items) + rest, token, left) == expanded(
            applied(data, items),
            rest,
            token,
            (left - items.len()) as nat,
        ),
        broken(data, bytes_of(items) + rest, token, left) == broken(
            applied(data, items),
            rest,
            token,
            (left - items.len()) as nat,
        ),
    decreases items.len(),
{
    if items.len() == 0 {
        assert(bytes_of(items) + rest =~= rest);
    } else {
        let init = items.drop_last();
        let last = items.last();
        let more = bytes_for(last) + rest;
        assert forall|j: int| 0 <= j < init.len() implies #[trigger] byte_bit(
            token,
            8 - left + j,
        ) == (init[j] is Literal) by {
            assert(init[j] == items[j]);
        }
        lemma_items(data, init, token, left, more);
        assert(bytes_of(items) + rest =~= bytes_of(init) + more);
        let before = applied(data, init);
        let at = (left - init.len()) as nat;
        assert(byte_bit(token, 8 - left + (items.len() - 1)) == (items[items.len() - 1] is Literal));
        assert(8 - at == 8 - left + (items.len() - 1));
        match last {
            Item::Literal(b) => {
                assert(more[0] == b);
                assert(more.skip(1) =~= rest);
            },
            Item::Match(ofs, len) => {
                assert(more[0] == ((len - MIN_MATCH) * 16 + ofs % 16) as u8);
                assert(more[1] == (ofs / 16) as u8);
                assert(match_ofs(more[0], more[1]) == ofs);
                assert(match_len(more[0]) == len);
                assert(more.skip(2) =~= rest);
            },
        }
    }
}

/// A group of up to eight items behind its flags is expanded to what the
/// items stand for.
pub proof fn lemma_group(data: Seq<u8>, items: Seq<Item>, token: u8, rest: Seq<u8>)
    requires
        items.len() <= 8,
        all_ok(data, items),
        high_flags(token, items),
    ensures
        expanded(data, seq![token] + bytes_of(items) + rest, 0, 0) == expanded(
            applied(data, items),
            rest,
            token,
            (8 - items.len()) as nat,
        ),
        broken(data, seq![token] + bytes_of(items) + rest, 0, 0) == broken(
            applied(data, items),
            rest,
            token,
            (8 - items.len()) as nat,
        ),
{
    let input = seq![token] + bytes_of(items) + rest;
    assert(input[0] == token);
    assert(input.skip(1) =~= bytes_of(items) + rest);
    assert forall|j: int| 0 <= j < items.len() implies #[trigger] byte_bit(token, 8 - 8 + j) == (
    items[j] is Literal) by {
        assert(byte_bit(token, j) == (j < items.len() && items[j] is Literal));
    }
    lemma_items(data, items, token, 8, rest);
}

/// Bytes that repeat at the distance `ofs` are what a match of that offset
/// copies.
pub proof fn lemma_match_copies(seen: Seq<u8>, at: nat, ofs: nat, len: nat)
    requires
        0 < ofs <= at,
        at + len <= seen.len(),
        forall|i: int| 0 <= i < len ==> seen[at + i - ofs] == #[trigger] seen[at + i],
    ensures
        copied(seen.take(at as int), ofs, len) == seen.take((at + len) as int),
    decreases len,
{
    if len > 0 {
        lemma_match_copies(seen, at, ofs, (len - 1) as nat);
        let before = seen.take(at + len - 1);
        assert(before[before.len() - ofs] == seen[at + (len - 1) - ofs]);
        assert(seen[at + (len - 1) - ofs] == seen[at + (len - 1)]);
        assert(before.push(seen[at + len - 1]) =~= seen.take((at + len) as int));
    }
}

/// Moving the flags up by one bit and putting a flag below them.
pub proof fn lemma_flag_in(token: u8, p: u8)
    by (bit_vector)
    requires
        p < 8,
    ensures
        p < 7 ==> has_weight((token << 1) | 1, weight(p)) == has_weight(
            token,
            weight((p + 1) as u8),
        ),
        p < 7 ==> has_weight(token << 1, weight(p)) == has_weight(token, weight((p + 1) as u8)),
        has_weight((token << 1) | 1, 1),
        !has_weight(token << 1, 1),
{
}

/// Moving the `c` lowest flags up to the highest bits.
pub proof fn lemma_flags_up(token: u8, c: u8, p: u8)
    by (bit_vector)
    requires
        0 < c < 8,
        p < 8,
    ensures
        p < c ==> has_weight(token << ((8 - c) as u8), weight(p)) == has_weight(
            token,
            weight((p + 8 - c) as u8),
        ),
        p >= c ==> !has_weight(token << ((8 - c) as u8), weight(p)),
{
}

/// The window holds the last `limit` bytes of what was taken in.
pub open spec fn tracks(window: Seq<u8>, limit: int, seen: Seq<u8>) -> bool {
    &&& 0 <= limit <= seen.len()
    &&& limit <= window.len()
    &&& forall|j: int| 0 <= j < limit ==> #[trigger] window[j] == seen[seen.len() - limit + j]
}

/// What a compressor keeps track of without storing it.
pub struct Notes {
    /// No group was written before it was full, so that what was written
    /// can be gone on with.
    pub open: bool,
    /// The number of bytes that stood in the buffer at the start.
    pub base: nat,
    /// What the groups that were written stand for.
    pub settled: Seq<u8>,
    /// The items of the group that is being filled.
    pub group: Seq<Item>,
    /// All bytes that were taken in.
    pub seen: Seq<u8>,
    /// The number of bytes that the items made so far stand for.
    pub coded: nat,
}

/// The bytes of the window from `from` up to `to`, joined to a number,
/// the first byte highest.
pub open spec fn joined(window: Seq<u8>, from: int, to: int) -> usize
    decreases to - from,
{
    if to <= from {
        0
    } else {
        (joined(window, from, to - 1) << 8) | (window[to - 1] as usize)
    }
}

/// Where the bytes that are hashed at the position `i` end: three bytes on,
/// or at the limit of the window.
pub open spec fn hashed_end(i: int, limit: int) -> int {
    if i + 3 < limit {
        i + 3
    } else {
        limit
    }
}

/// The hash of the up to three bytes that stand in the window from `i` on.
pub open spec fn hash_value(window: Seq<u8>, i: int, limit: int) -> usize {
    ((joined(window, i, hashed_end(i, limit)) >> 5) ^ joined(window, i, hashed_end(i, limit)))
        & 1023
}

/// The hash table after the window slid down: the positions follow, and
/// those that have left the window are dropped.
pub open spec fn slid_hashes(hashtab: Seq<usize>) -> Seq<usize> {
    Seq::new(
        hashtab.len(),
        |k: int|
            if hashtab[k] > WINDOW_SIZE {
                (hashtab[k] - WINDOW_SIZE) as usize
            } else {
                UNUSED
            },
    )
}

/// An LZ77 compressor.
pub struct CompressWriter {
    inner: Vec<u8>,
    window: SlidingWindow,
    hashtab: Vec<usize>,
    emit_token: u8,
    emit_cnt: usize,
    emit_data: Vec<u8>,
    emit_len: usize,
    notes: Ghost<Notes>,
}

impl CompressWriter {
    /// The compressed bytes written so far, behind what stood in the buffer
    /// at the start.
    pub closed spec fn out(&self) -> Seq<u8> {
        self.inner@
    }

    /// The number of bytes that stood in the buffer at the start.
    pub closed spec fn base(&self) -> nat {
        self.notes@.base
    }

    /// All bytes that were taken in.
    pub closed spec fn seen(&self) -> Seq<u8> {
        self.notes@.seen
    }

    /// No group was written before it was full: the stream can be gone on
    /// with.
    pub closed spec fn is_open(&self) -> bool {
        self.notes@.open
    }

    /// The number of bytes that were taken in and not yet compressed.
    pub closed spec fn waiting(&self) -> int {
        self.window.limit - self.window.position
    }

    /// The number of items of the group that is being filled.
    pub closed spec fn items(&self) -> int {
        self.emit_cnt as int
    }

    /// The buffers have their sizes and the window holds the last bytes
    /// taken in.
    pub closed spec fn inv(&self) -> bool {
        &&& self.window.wf()
        &&& self.window.window_size == WINDOW_SIZE
        &&& self.window.lookahead_size == LOOK_AHEAD_SIZE
        &&& self.window.position < 2 * WINDOW_SIZE
        &&& self.hashtab@.len() == HASHTAB_SIZE
        &&& self.emit_data@.len() == MAX_RUN_LENGTH
        &&& self.emit_cnt <= 8
        &&& self.emit_cnt <= self.emit_len <= 2 * self.emit_cnt
        &&& tracks(self.window.window@, self.window.limit as int, self.notes@.seen)
    }

    /// While the stream is open, the groups that were written and the
    /// items of the group that is being filled stand for the first bytes
    /// that were taken in.
    pub closed spec fn coding_ok(&self) -> bool {
        self.notes@.open ==> {
            &&& self.notes@.base <= self.inner@.len()
            &&& leads_to(self.inner@.skip(self.notes@.base as int), self.notes@.settled)
            &&& self.notes@.group.len() == self.emit_cnt
            &&& self.emit_data@.subrange(1, 1 + self.emit_len) == bytes_of(self.notes@.group)
            &&& low_flags(self.emit_token, self.notes@.group)
            &&& all_ok(self.notes@.settled, self.notes@.group)
            &&& self.notes@.coded <= self.notes@.seen.len()
            &&& applied(self.notes@.settled, self.notes@.group) == self.notes@.seen.take(
                self.notes@.coded as int,
            )
        }
    }

    /// The compressor is in order: while the stream is open, all bytes
    /// taken in but those that wait have been made into items.
    pub closed spec fn wf(&self) -> bool {
        &&& self.inv()
        &&& self.coding_ok()
        &&& self.notes@.open ==> self.notes@.coded + (self.window.limit - self.window.position)
            == self.notes@.seen.len()
    }

    /// Create a new compressor that appends to `inner`.
    pub fn new(inner: Vec<u8>) -> (w: CompressWriter)
        ensures
            w.wf(),
            w.is_open(),
            w.out() == inner@,
            w.base() == inner@.len(),
            w.seen() == Seq::<u8>::empty(),
            w.waiting() == 0,
            w.items() == 0,
    {
        let mut hashtab: Vec<usize> = Vec::new();
        let mut i: usize = 0;
        while i < HASHTAB_SIZE
            invariant
                i <= HASHTAB_SIZE,
                hashtab@.len() == i,
            decreases HASHTAB_SIZE - i,
        {
            hashtab.push(UNUSED);
            i += 1;
        }
        let mut emit_data: Vec<u8> = Vec::new();
        let mut i: usize = 0;
        while i < MAX_RUN_LENGTH
            invariant
                i <= MAX_RUN_LENGTH,
                emit_data@.len() == i,
            decreases MAX_RUN_LENGTH - i,
        {
            emit_data.push(0);
            i += 1;
        }
        let ghost notes = Notes {
            open: true,
            base: inner@.len(),
            settled: Seq::empty(),
            group: Seq::empty(),
            seen: Seq::empty(),
            coded: 0,
        };
        proof {
            let body = inner@.skip(inner@.len() as int);
            assert forall|rest: Seq<u8>|
                expanded(Seq::empty(), #[trigger] (body + rest), 0, 0) == expanded(
                    Seq::empty(),
                    rest,
                    0,
                    0,
                ) && broken(Seq::empty(), body + rest, 0, 0) == broken(
                    Seq::empty(),
                    rest,
                    0,
                    0,
                ) by {
                assert(body + rest =~= rest);
            }
            assert(emit_data@.subrange(1, 1) =~= bytes_of(notes.group));
        }
        let w = CompressWriter {
            inner: inner,
            window: SlidingWindow::new(WINDOW_SIZE, LOOK_AHEAD_SIZE),
            hashtab: hashtab,
            emit_token: 0,
            emit_cnt: 0,
            emit_data: emit_data,
            emit_len: 0,
            notes: Ghost(notes),
        };
        proof {
            assert(w.inv());
            assert(leads_to(w.inner@.skip(notes.base as int), notes.settled));
            assert(low_flags(0, notes.group));
            assert(notes.seen.take(0) =~= notes.settled);
        }
        w
    }

    /// Write the group that is being filled: its flags, moved up to the
    /// highest bits, and the bytes of its items.  Unless the group is full,
    /// this closes the stream.
    fn emit_flush(&mut self) -> (r: Result<(), Error>)
        requires
            old(self).inv(),
            old(self).coding_ok(),
        ensures
            r is Ok,
            final(self).inv(),
            final(self).coding_ok(),
            final(self).emit_cnt == 0,
            final(self).window == old(self).window,
            final(self).hashtab == old(self).hashtab,
            final(self).inner@.len() == old(self).inner@.len() + 1 + old(self).emit_len,
            final(self).inner@.take(old(self).inner@.len() as int) == old(self).inner@,
            final(self).notes@.seen == old(self).notes@.seen,
            final(self).notes@.coded == old(self).notes@.coded,
            final(self).notes@.base == old(self).notes@.base,
            final(self).notes@.open == (old(self).notes@.open && old(self).emit_cnt == 8),
            old(self).notes@.open ==> decodes_to(
                final(self).inner@.skip(old(self).notes@.base as int),
                old(self).notes@.seen.take(old(self).notes@.coded as int),
            ),
    {
        let ghost n0 = self.notes@;
        let ghost t0 = self.emit_token;
        let ghost k = self.emit_cnt;
        let ghost data0 = self.emit_data@;
        if self.emit_cnt < 8 && self.emit_cnt > 0 {
            self.emit_token = self.emit_token << ((8 - self.emit_cnt) as u8);
        }
        let ghost token = self.emit_token;
        proof {
            if n0.open {
                assert forall|j: int| 0 <= j < 8 implies #[trigger] byte_bit(token, j) == (j
                    < n0.group.len() && n0.group[j] is Literal) by {
                    if 0 < k < 8 {
                        lemma_flags_up(t0, k as u8, j as u8);
                        if j < k {
                            assert(byte_bit(t0, j + 8 - k) == (n0.group[j] is Literal));
                        }
                    } else {
                        assert(byte_bit(t0, j) == (j >= 8 - n0.group.len() && n0.group[j - (8
                            - n0.group.len())] is Literal));
                    }
                }
            }
        }
        self.emit_data.set(0, self.emit_token);
        let ghost data1 = self.emit_data@;
        proof {
            assert(data1.subrange(1, 1 + self.emit_len) =~= data0.subrange(1, 1 + self.emit_len));
            assert(old(self).inner@ + data1.subrange(0, 0) =~= old(self).inner@);
        }
        let mut i: usize = 0;
        while i < self.emit_len + 1
            invariant
                i <= self.emit_len + 1,
                self.inv(),
                self.emit_len == old(self).emit_len,
                self.emit_cnt == old(self).emit_cnt,
                self.emit_token == token,
                self.emit_data@ == data1,
                self.window == old(self).window,
                self.hashtab == old(self).hashtab,
                self.notes == old(self).notes,
                self.inner@ == old(self).inner@ + data1.subrange(0, i as int),
            decreases self.emit_len + 1 - i,
        {
            self.inner.push(self.emit_data[i]);
            proof {
                assert(self.inner@ =~= old(self).inner@ + data1.subrange(0, i + 1));
            }
            i += 1;
        }
        self.emit_token = 0;
        self.emit_cnt = 0;
        self.emit_len = 0;
        proof {
            assert(self.inner@.take(old(self).inner@.len() as int) =~= old(self).inner@);
            if n0.open {
                let body = old(self).inner@.skip(n0.base as int);
                let group_bytes = seq![token] + bytes_of(n0.group);
                let stands = applied(n0.settled, n0.group);
                let nothing = Seq::<u8>::empty();
                assert(data1.subrange(0, old(self).emit_len + 1) =~= group_bytes);
                assert(self.inner@.skip(n0.base as int) =~= body + group_bytes);
                lemma_group(n0.settled, n0.group, token, nothing);
                assert(body + group_bytes =~= body + (group_bytes + nothing));
                assert(expanded(Seq::empty(), body + (group_bytes + nothing), 0, 0) == expanded(
                    n0.settled,
                    group_bytes + nothing,
                    0,
                    0,
                ));
                assert(broken(Seq::empty(), body + (group_bytes + nothing), 0, 0) == broken(
                    n0.settled,
                    group_bytes + nothing,
                    0,
                    0,
                ));
                if k < 8 {
                    assert(byte_bit(token, k as int) == (k < n0.group.len() && n0.group[k as int] is Literal));
                }
                if k == 8 {
                    self.notes@ = Notes { settled: stands, group: Seq::empty(), ..n0 };
                    let whole = body + group_bytes;
                    assert forall|rest: Seq<u8>|
                        expanded(Seq::empty(), #[trigger] (whole + rest), 0, 0) == expanded(
                            stands,
                            rest,
                            0,
                            0,
                        ) && broken(Seq::empty(), whole + rest, 0, 0) == broken(
                            stands,
                            rest,
                            0,
                            0,
                        ) by {
                        lemma_group(n0.settled, n0.group, token, rest);
                        assert(whole + rest =~= body + (group_bytes + rest));
                        assert(expanded(Seq::empty(), body + (group_bytes + rest), 0, 0)
                            == expanded(n0.settled, group_bytes + rest, 0, 0));
                        assert(broken(Seq::empty(), body + (group_bytes + rest), 0, 0) == broken(
                            n0.settled,
                            group_bytes + rest,
                            0,
                            0,
                        ));
                        lemma_token_free(stands, rest, token);
                    }
                    assert(self.emit_data@.subrange(1, 1) =~= bytes_of(Seq::<Item>::empty()));
                } else {
                    self.notes@ = Notes { open: false, ..n0 };
                }
            }
        }
        Ok(())
    }

    /// Add the literal `l` to the group.
    fn emit_literal(&mut self, l: u8) -> (r: Result<(), Error>)
        requires
            old(self).inv(),
            old(self).coding_ok(),
            old(self).notes@.open ==> old(self).notes@.coded < old(self).notes@.seen.len()
                && old(self).notes@.seen[old(self).notes@.coded as int] == l,
        ensures
            r is Ok,
            final(self).inv(),
            final(self).coding_ok(),
            final(self).window == old(self).window,
            final(self).hashtab == old(self).hashtab,
            final(self).inner@.len() >= old(self).inner@.len(),
            final(self).inner@.take(old(self).inner@.len() as int) == old(self).inner@,
            final(self).notes@.seen == old(self).notes@.seen,
            final(self).notes@.base == old(self).notes@.base,
            final(self).notes@.open == old(self).notes@.open,
            final(self).notes@.coded == old(self).notes@.coded + 1,
    {
        proof {
            assert(self.inner@.take(self.inner@.len() as int) =~= self.inner@);
        }
        if self.emit_cnt == 8 {
            let _ = self.emit_flush();
        }
        let ghost n1 = self.notes@;
        let ghost t1 = self.emit_token;
        let ghost data1 = self.emit_data@;
        let ghost len1 = self.emit_len;
        self.emit_token = (self.emit_token << 1) | 1;
        self.emit_data.set(self.emit_len + 1, l);
        self.emit_cnt += 1;
        self.emit_len += 1;
        proof {
            let item = Item::Literal(l);
            let group = n1.group.push(item);
            self.notes@ = Notes { group: group, coded: n1.coded + 1, ..n1 };
            if n1.open {
                assert(group.drop_last() =~= n1.group);
                assert(self.emit_data@.subrange(1, 1 + self.emit_len) =~= data1.subrange(
                    1,
                    1 + len1,
                ) + bytes_for(item));
                assert forall|j: int| 0 <= j < 8 implies #[trigger] byte_bit(self.emit_token, j)
                    == (j >= 8 - group.len() && group[j - (8 - group.len())] is Literal) by {
                    lemma_flag_in(t1, j as u8);
                    if j < 7 {
                        assert(byte_bit(t1, j + 1) == (j + 1 >= 8 - n1.group.len() && n1.group[j
                            + 1 - (8 - n1.group.len())] is Literal));
                    }
                }
                assert(n1.seen.take(n1.coded as int).push(l) =~= n1.seen.take((n1.coded + 1) as int));
            }
        }
        Ok(())
    }

    /// Add a match of `len` bytes that starts `ofs` bytes back to the
    /// group.
    fn emit_match(&mut self, ofs: usize, len: usize) -> (r: Result<(), Error>)
        requires
            old(self).inv(),
            old(self).coding_ok(),
            0 < ofs < WINDOW_SIZE,
            MIN_MATCH <= len <= MAX_LENGTH,
            old(self).notes@.open ==> {
                &&& ofs <= old(self).notes@.coded
                &&& old(self).notes@.coded + len <= old(self).notes@.seen.len()
                &&& forall|i: int|
                    0 <= i < len ==> old(self).notes@.seen[old(self).notes@.coded + i - ofs]
                        == #[trigger] old(self).notes@.seen[old(self).notes@.coded + i]
            },
        ensures
            r is Ok,
            final(self).inv(),
            final(self).coding_ok(),
            final(self).window == old(self).window,
            final(self).hashtab == old(self).hashtab,
            final(self).inner@.len() >= old(self).inner@.len(),
            final(self).inner@.take(old(self).inner@.len() as int) == old(self).inner@,
            final(self).notes@.seen == old(self).notes@.seen,
            final(self).notes@.base == old(self).notes@.base,
            final(self).notes@.open == old(self).notes@.open,
            final(self).notes@.coded == old(self).notes@.coded + len,
    {
        proof {
            assert(self.inner@.take(self.inner@.len() as int) =~= self.inner@);
        }
        if self.emit_cnt == 8 {
            let _ = self.emit_flush();
        }
        let ghost n1 = self.notes@;
        let ghost t1 = self.emit_token;
        let ghost data1 = self.emit_data@;
        let ghost len1 = self.emit_len;
        let more = len - MIN_MATCH;
        let lp1: u8 = ((((more) as u8) & 0x0f) << 4) | (#[verifier::truncate] (ofs as u8)) & 0x0f;
        let ofs_hi: u8 = #[verifier::truncate] ((ofs >> 4) as u8);
        proof {
            lemma_match_bytes(more as u8, ofs as u16, lp1, ofs_hi);
        }
        self.emit_token = self.emit_token << 1;
        self.emit_data.set(self.emit_len + 1, lp1);
        self.emit_data.set(self.emit_len + 2, ofs_hi);
        self.emit_cnt += 1;
        self.emit_len += 2;
        proof {
            let item = Item::Match(ofs as nat, len as nat);
            let group = n1.group.push(item);
            self.notes@ = Notes { group: group, coded: (n1.coded + len) as nat, ..n1 };
            if n1.open {
                assert(group.drop_last() =~= n1.group);
                assert(bytes_for(item) =~= seq![lp1, ofs_hi]);
                assert(self.emit_data@.subrange(1, 1 + self.emit_len) =~= data1.subrange(
                    1,
                    1 + len1,
                ) + bytes_for(item));
                assert forall|j: int| 0 <= j < 8 implies #[trigger] byte_bit(self.emit_token, j)
                    == (j >= 8 - group.len() && group[j - (8 - group.len())] is Literal) by {
                    lemma_flag_in(t1, j as u8);
                    if j < 7 {
                        assert(byte_bit(t1, j + 1) == (j + 1 >= 8 - n1.group.len() && n1.group[j
                            + 1 - (8 - n1.group.len())] is Literal));
                    }
                }
                lemma_match_copies(n1.seen, n1.coded, ofs as nat, len as nat);
            }
        }
        Ok(())
    }

    /// Compress the bytes that wait, all of them where `flush` is set, else
    /// all but the last that fill the look-ahead space.
    fn process(&mut self, flush: bool) -> (r: Result<(), Error>)
        requires
            old(self).wf(),
        ensures
            r is Ok,
            final(self).wf(),
            flush ==> final(self).waiting() == 0,
            !flush ==> final(self).waiting() <= LOOK_AHEAD_SIZE,
            final(self).waiting() <= old(self).waiting(),
            final(self).out().len() >= old(self).out().len(),
            final(self).out().take(old(self).out().len() as int) == old(self).out(),
            final(self).notes@.seen == old(self).notes@.seen,
            final(self).notes@.base == old(self).notes@.base,
            final(self).notes@.open == old(self).notes@.open,
    {
        let headroom = if flush {
            0
        } else {
            LOOK_AHEAD_SIZE
        };
        proof {
            assert(self.inner@.take(self.inner@.len() as int) =~= self.inner@);
        }
        while self.window.position + headroom < self.window.limit
            invariant
                self.wf(),
                headroom == if flush { 0usize } else { LOOK_AHEAD_SIZE },
                self.waiting() <= old(self).waiting(),
                self.inner@.len() >= old(self).inner@.len(),
                self.inner@.take(old(self).inner@.len() as int) == old(self).inner@,
                self.notes@.seen == old(self).notes@.seen,
                self.notes@.base == old(self).notes@.base,
                self.notes@.open == old(self).notes@.open,
            decreases self.window.limit - self.window.position,
        {
            let ghost w0 = self.window.limit - self.window.position;
            let ghost n0 = self.notes@;
            let h = self.calc_hash(self.window.position);
            let search_pos = self.hashtab[h];
            let mut match_len: usize = 0;

            if search_pos != UNUSED && search_pos < self.window.position && self.window.position
                - search_pos < WINDOW_SIZE {
                while match_len < MAX_LENGTH
                    invariant
                        self.wf(),
                        match_len <= MAX_LENGTH,
                        search_pos < self.window.position,
                        self.window.position + match_len <= self.window.limit,
                        forall|i: int|
                            0 <= i < match_len ==> self.window.window@[search_pos + i]
                                == #[trigger] self.window.window@[self.window.position + i],
                    decreases MAX_LENGTH - match_len,
                {
                    if self.window.position + match_len >= self.window.limit {
                        break ;
                    }
                    if self.window.window[search_pos + match_len]
                        != self.window.window[self.window.position + match_len] {
                        break ;
                    }
                    match_len += 1;
                }
            }
            let ghost mid = self.inner@;
            let replace = if match_len >= MIN_MATCH {
                let ofs = self.window.position - search_pos;
                proof {
                    if n0.open {
                        let seen = n0.seen;
                        let shift = seen.len() - self.window.limit;
                        assert forall|i: int| 0 <= i < match_len implies seen[n0.coded + i - ofs]
                            == #[trigger] seen[n0.coded + i] by {
                            assert(self.window.window@[search_pos + i] == seen[shift + (search_pos
                                + i)]);
                            assert(self.window.window@[self.window.position + i] == seen[shift + (
                            self.window.position + i)]);
                        }
                    }
                }
                let _ = self.emit_match(ofs, match_len);

                match_len
            } else {
                let lit = self.window.window[self.window.position];
                let _ = self.emit_literal(lit);
                1
            };
            proof {
                assert(self.inner@.take(old(self).inner@.len() as int) =~= mid.take(
                    old(self).inner@.len() as int,
                ));
            }
            let ghost made = self.inner@;
            let ghost n1 = self.notes@;
            let mut i: usize = 0;
            while i < replace
                invariant
                    self.inv(),
                    self.coding_ok(),
                    self.notes@ == n1,
                    self.inner@ == made,
                    n1.seen == old(self).notes@.seen,
                    n1.base == old(self).notes@.base,
                    n1.open == old(self).notes@.open,
                    n1.open ==> n1.coded + (self.window.limit - self.window.position) == n1.seen.len()
                        + (replace - i),
                    1 <= replace <= MAX_LENGTH,
                    i <= replace,
                    self.window.position + (replace - i) <= self.window.limit,
                    self.window.limit - self.window.position + i == w0,
                    w0 <= old(self).waiting(),
                    made.len() >= old(self).inner@.len(),
                    made.take(old(self).inner@.len() as int) == old(self).inner@,
                decreases replace - i,
            {
                let pos = self.window.position;
                self.hash(pos + i);
                self.step();
                i += 1;
            }
        }
        Ok(())
    }

    /// Move on by one byte in the window, and keep the hash table in line
    /// where the window slides.
    fn step(&mut self)
        requires
            old(self).inv(),
            old(self).window.position < old(self).window.limit,
        ensures
            final(self).inv(),
            final(self).inner == old(self).inner,
            final(self).emit_token == old(self).emit_token,
            final(self).emit_cnt == old(self).emit_cnt,
            final(self).emit_data == old(self).emit_data,
            final(self).emit_len == old(self).emit_len,
            final(self).notes == old(self).notes,
            final(self).window.limit - final(self).window.position + 1 == old(self).window.limit
                - old(self).window.position,
    {
        let ghost before = self.window;
        if self.window.advance() {
            proof {
                let w = self.window.window@;
                let limit = self.window.limit as int;
                let seen = self.notes@.seen;
                assert forall|j: int| 0 <= j < limit implies #[trigger] w[j] == seen[seen.len()
                    - limit + j] by {
                    assert(w[j] == before.window@[j + WINDOW_SIZE]);
                }
            }
            self.slide_hashes();
        }
    }

    /// The hash of the up to three bytes that stand in the window from `i`
    /// on.
    fn calc_hash(&self, i: usize) -> (hash: usize)
        requires
            self.inv(),
            i <= usize::MAX - 3,
        ensures
            hash < HASHTAB_SIZE,
            hash == hash_value(self.window.window@, i as int, self.window.limit as int),
    {
        let mut hash: usize = 0;
        let end = if i + 3 < self.window.limit {
            i + 3
        } else {
            self.window.limit
        };
        let mut x: usize = i;
        while x < end
            invariant
                end <= self.window.limit,
                self.inv(),
                i <= x,
                x == i || x <= end,
                hash == joined(self.window.window@, i as int, x as int),
            decreases end - x,
        {
            hash = (hash << 8) | (self.window.window[x] as usize);
            x += 1;
        }
        let folded = (hash >> 5) ^ hash;
        assert(folded & 1023 < 1024) by (bit_vector);
        hash = ((hash >> 5) ^ hash) & (HASHTAB_SIZE - 1);
        hash
    }

    /// Enter position `i` into the hash table, under the hash of the bytes
    /// that stand there.
    fn hash(&mut self, i: usize)
        requires
            old(self).inv(),
            i <= usize::MAX - 3,
        ensures
            final(self).inv(),
            final(self).hashtab@ == old(self).hashtab@.update(
                hash_value(old(self).window.window@, i as int, old(self).window.limit as int) as int,
                i,
            ),
            final(self).window == old(self).window,
            final(self).inner == old(self).inner,
            final(self).emit_token == old(self).emit_token,
            final(self).emit_cnt == old(self).emit_cnt,
            final(self).emit_data == old(self).emit_data,
            final(self).emit_len == old(self).emit_len,
            final(self).notes == old(self).notes,
    {
        let hash = self.calc_hash(i);
        self.hashtab.set(hash, i);
    }

    /// Move the positions in the hash table down by the size of the window,
    /// and drop those that have left the window.
    fn slide_hashes(&mut self)
        requires
            old(self).inv(),
        ensures
            final(self).inv(),
            final(self).hashtab@ == slid_hashes(old(self).hashtab@),
            final(self).window == old(self).window,
            final(self).inner == old(self).inner,
            final(self).emit_token == old(self).emit_token,
            final(self).emit_cnt == old(self).emit_cnt,
            final(self).emit_data == old(self).emit_data,
            final(self).emit_len == old(self).emit_len,
            final(self).notes == old(self).notes,
    {
        let mut k: usize = 0;
        while k < HASHTAB_SIZE
            invariant
                k <= HASHTAB_SIZE,
                self.inv(),
                self.window == old(self).window,
                self.inner == old(self).inner,
                self.emit_token == old(self).emit_token,
                self.emit_cnt == old(self).emit_cnt,
                self.emit_data == old(self).emit_data,
                self.emit_len == old(self).emit_len,
                self.notes == old(self).notes,
                old(self).hashtab@.len() == HASHTAB_SIZE,
                forall|j: int| 0 <= j < k ==> self.hashtab@[j] == slid_hashes(old(self).hashtab@)[j],
                forall|j: int| k <= j < HASHTAB_SIZE ==> self.hashtab@[j] == old(self).hashtab@[j],
            decreases HASHTAB_SIZE - k,
        {
            let e = self.hashtab[k];
            if e > WINDOW_SIZE {
                self.hashtab.set(k, e - WINDOW_SIZE);
            } else {
                self.hashtab.set(k, UNUSED);
            }
            k += 1;
        }
        proof {
            assert(self.hashtab@ =~= slid_hashes(old(self).hashtab@));
        }
    }

    /// Give up the compressor for the buffer it wrote to.
    pub fn to_inner(self) -> (inner: Vec<u8>)
        ensures
            inner@ == self.out(),
    {
        self.inner
    }

    /// Take in the bytes of `buf`, compressing all but those that fill the
    /// look-ahead space, and return the number of bytes taken in.
    pub fn write(&mut self, buf: &[u8]) -> (r: Result<usize, Error>)
        requires
            old(self).wf(),
        ensures
            r == Ok::<usize, Error>(buf@.len() as usize),
            final(self).wf(),
            final(self).seen() == old(self).seen() + buf@,
            final(self).base() == old(self).base(),
            final(self).is_open() == old(self).is_open(),
            final(self).waiting() <= LOOK_AHEAD_SIZE || buf@.len() == 0,
            final(self).out().len() >= old(self).out().len(),
            final(self).out().take(old(self).out().len() as int) == old(self).out(),
    {
        let mut written: usize = 0;
        let total: usize = buf.len();
        proof {
            assert(self.inner@.take(self.inner@.len() as int) =~= self.inner@);
            assert(self.notes@.seen + buf@.take(0) =~= self.notes@.seen);
        }
        while written < buf.len()
            invariant
                written <= buf@.len(),
                total == buf@.len(),
                self.wf(),
                written > 0 ==> self.waiting() <= LOOK_AHEAD_SIZE,
                self.inner@.len() >= old(self).inner@.len(),
                self.inner@.take(old(self).inner@.len() as int) == old(self).inner@,
                self.notes@.seen == old(self).notes@.seen + buf@.take(written as int),
                self.notes@.base == old(self).notes@.base,
                self.notes@.open == old(self).notes@.open,
            decreases buf@.len() - written, self.waiting(),
        {
            let space = self.window.free_space();
            let amount = if space < buf.len() - written {
                space
            } else {
                buf.len() - written
            };
            let ghost mid = self.inner@;
            if amount == 0 {
                // The window is full of bytes that wait: make room.
                let _ = self.process(false);
            } else {
                let mut t: usize = 0;
                while t < amount
                    invariant
                        t <= amount,
                        total == buf@.len(),
                        written + amount <= buf@.len(),
                        self.wf(),
                        self.window.limit + (amount - t) <= self.window.window_buffer_size,
                        self.inner@ == mid,
                        self.notes@.seen == old(self).notes@.seen + buf@.take(written + t),
                        self.notes@.base == old(self).notes@.base,
                        self.notes@.open == old(self).notes@.open,
                    decreases amount - t,
                {
                    self.take_in(buf[written + t]);
                    proof {
                        assert(buf@.take(written + t + 1) =~= buf@.take(written + t).push(
                            buf@[written + t],
                        ));
                        assert(self.notes@.seen =~= old(self).notes@.seen + buf@.take(
                            written + t + 1,
                        ));
                    }
                    t += 1;
                }
                written += amount;

                let _ = self.process(false);
            }
            proof {
                assert(self.inner@.take(old(self).inner@.len() as int) =~= mid.take(
                    old(self).inner@.len() as int,
                ));
            }
        }
        proof {
            assert(buf@.take(written as int) =~= buf@);
        }
        Ok(written)
    }

    /// Put the byte `b` into the window, behind the bytes that wait.
    fn take_in(&mut self, b: u8)
        requires
            old(self).wf(),
            old(self).window.limit < old(self).window.window_buffer_size,
        ensures
            final(self).wf(),
            final(self).inner == old(self).inner,
            final(self).window.limit == old(self).window.limit + 1,
            final(self).window.position == old(self).window.position,
            final(self).window.window_buffer_size == old(self).window.window_buffer_size,
            final(self).notes@.seen == old(self).notes@.seen.push(b),
            final(self).notes@.base == old(self).notes@.base,
            final(self).notes@.open == old(self).notes@.open,
    {
        let ghost n0 = self.notes@;
        self.window.push(b);
        proof {
            self.notes@ = Notes { seen: n0.seen.push(b), ..n0 };
            if n0.open {
                assert(n0.seen.push(b).take(n0.coded as int) =~= n0.seen.take(n0.coded as int));
            }
        }
    }

    /// Compress all bytes that wait and write the last group.  Where the
    /// stream was open, what was written since the start now stands for
    /// all bytes that were taken in.
    pub fn flush(&mut self) -> (r: Result<(), Error>)
        requires
            old(self).wf(),
        ensures
            r is Ok,
            final(self).wf(),
            final(self).waiting() == 0,
            final(self).items() == 0,
            final(self).seen() == old(self).seen(),
            final(self).base() == old(self).base(),
            old(self).is_open() ==> final(self).base() <= final(self).out().len() && decodes_to(
                final(self).out().skip(final(self).base() as int),
                final(self).seen(),
            ),
            final(self).out().len() > old(self).out().len(),
            final(self).out().take(old(self).out().len() as int) == old(self).out(),
    {
        // Process the remaining window contents, to the end, including the
        // look-ahead buffer.
        let _ = self.process(true);
        let ghost mid = self.inner@;
        proof {
            assert(self.notes@.seen.take(self.notes@.seen.len() as int) =~= self.notes@.seen);
        }
        let _ = self.emit_flush();
        proof {
            assert(self.inner@.take(old(self).inner@.len() as int) =~= mid.take(
                old(self).inner@.len() as int,
            ));
        }
        Ok(())
    }
}

/// The two bytes of a match hold its length and its offset.
proof fn lemma_match_bytes(more: u8, ofs: u16, lp1: u8, ofs_hi: u8)
    by (bit_vector)
    requires
        more <= 15,
        ofs < 4096,
        lp1 == ((more & 0x0f) << 4) | ((ofs as u8) & 0x0f),
        ofs_hi == (ofs >> 4) as u8,
    ensures
        lp1 == more * 16 + ofs % 16,
        ofs_hi == ofs / 16,
{
}

/// The window holds the last bytes of `data` up to `limit`, and zeros from
/// there on.
pub open spec fn mirrors(window: Seq<u8>, limit: int, data: Seq<u8>) -> bool {
    &&& 0 <= limit <= data.len()
    &&& limit <= window.len()
    &&& forall|j: int| 0 <= j < limit ==> window[j] == data[data.len() - limit + j]
    &&& forall|j: int| limit <= j < window.len() ==> window[j] == 0
}

/// An LZ77 decompressor.
pub struct DecompressReader<'a> {
    inner: &'a [u8],
    pos: usize,
    window: SlidingWindow,
    start: usize,
    data: Ghost<Seq<u8>>,
}

impl<'a> DecompressReader<'a> {
    /// The compressed bytes that the decompressor has not read.
    pub closed spec fn input(&self) -> Seq<u8> {
        self.inner@.skip(self.pos as int)
    }

    /// All bytes that the decompressor has expanded.
    pub closed spec fn data(&self) -> Seq<u8> {
        self.data@
    }

    /// The decompressor's representation is consistent, apart from the
    /// positions in its window.
    pub closed spec fn inv(&self) -> bool {
        &&& self.pos <= self.inner@.len()
        &&& self.window.wf()
        &&& self.window.window_size == WINDOW_SIZE
        &&& self.window.lookahead_size == LOOK_AHEAD_SIZE
        &&& self.window.position < 2 * WINDOW_SIZE
        &&& self.window.limit - self.window.position <= LOOK_AHEAD_SIZE
        &&& mirrors(self.window.window@, self.window.limit as int, self.data@)
    }

    /// The decompressor is in order.
    pub closed spec fn wf(&self) -> bool {
        &&& self.inv()
        &&& self.window.position == self.window.limit
        &&& self.start == self.window.position
        &&& self.window.position == self.data@.len() || self.window.position >= WINDOW_SIZE
    }

    /// Create a new decompressor for the data in `inner`.
    pub fn new(inner: &'a [u8]) -> (r: DecompressReader<'a>)
        ensures
            r.wf(),
            r.input() == inner@,
            r.data() == Seq::<u8>::empty(),
    {
        assert(inner@.skip(0) =~= inner@);
        DecompressReader {
            inner: inner,
            pos: 0,
            window: SlidingWindow::new(WINDOW_SIZE, LOOK_AHEAD_SIZE),
            start: 0,
            data: Ghost(Seq::empty()),
        }
    }

    /// The next byte of the input, or `None` at its end.
    fn getc(&mut self) -> (r: Result<Option<u8>, Error>)
        requires
            old(self).pos <= old(self).inner@.len(),
        ensures
            final(self).pos <= final(self).inner@.len(),
            final(self).window == old(self).window,
            final(self).start == old(self).start,
            final(self).data == old(self).data,
            final(self).inner == old(self).inner,
            old(self).input().len() > 0 ==> r == Ok::<Option<u8>, Error>(
                Some(old(self).input()[0]),
            ) && final(self).input() == old(self).input().skip(1),
            old(self).input().len() == 0 ==> r == Ok::<Option<u8>, Error>(None) && final(self).input() == old(self).input(),
    {
        if self.pos < self.inner.len() {
            let b = self.inner[self.pos];
            proof {
                assert(self.inner@.skip(self.pos as int).skip(1) =~= self.inner@.skip(
                    self.pos + 1,
                ));
            }
            self.pos += 1;
            Ok(Some(b))
        } else {
            Ok(None)
        }
    }

    /// Put `b` at the end of the window and of the data.
    fn push(&mut self, b: u8)
        requires
            old(self).inv(),
            old(self).window.limit - old(self).window.position < LOOK_AHEAD_SIZE,
        ensures
            final(self).inv(),
            final(self).pos == old(self).pos,
            final(self).inner == old(self).inner,
            final(self).start == old(self).start,
            final(self).window.position == old(self).window.position,
            final(self).window.limit == old(self).window.limit + 1,
            final(self).data@ == old(self).data@.push(b),
    {
        self.window.push(b);
        proof {
            self.data@ = self.data@.push(b);
        }
    }

    /// Move on by `n` bytes in the window, which were put there before.
    fn advance(&mut self, n: usize)
        requires
            old(self).inv(),
            old(self).window.limit - old(self).window.position == n,
            old(self).start == old(self).window.position,
            old(self).window.position == old(self).data@.len() - n || old(self).window.position
                >= WINDOW_SIZE,
        ensures
            final(self).inv(),
            final(self).pos == old(self).pos,
            final(self).inner == old(self).inner,
            final(self).data == old(self).data,
            final(self).window.position == final(self).window.limit,
            final(self).start + n == final(self).window.position,
            final(self).window.position == final(self).data@.len() || final(self).window.position
                >= WINDOW_SIZE,
    {
        let mut i: usize = 0;
        while i < n
            invariant
                i <= n <= LOOK_AHEAD_SIZE,
                self.inv(),
                self.pos == old(self).pos,
                self.inner == old(self).inner,
                self.data == old(self).data,
                self.window.limit - self.window.position == n - i,
                self.start + i == self.window.position,
                self.window.position == self.data@.len() - (n - i) || self.window.position
                    >= WINDOW_SIZE,
            decreases n - i,
        {
            let ghost before = self.window;
            if self.window.advance() {
                self.start -= WINDOW_SIZE;
                proof {
                    let w = self.window.window@;
                    let limit = self.window.limit as int;
                    assert forall|j: int| 0 <= j < limit implies w[j] == self.data@[self.data@.len()
                        - limit + j] by {
                        assert(w[j] == before.window@[j + WINDOW_SIZE]);
                    }
                    assert forall|j: int| limit <= j < w.len() implies w[j] == 0 by {
                        if j + WINDOW_SIZE < w.len() {
                            assert(w[j] == before.window@[j + WINDOW_SIZE]);
                        }
                    }
                }
            }
            i += 1;
        }
    }

    /// Append the bytes that were expanded and not yet given out to
    /// `output`.
    fn copy_out(&mut self, output: &mut Vec<u8>, Ghost(n): Ghost<nat>)
        requires
            old(self).inv(),
            old(self).window.position == old(self).window.limit,
            old(self).start + n == old(self).window.position,
        ensures
            final(self).inv(),
            final(self).pos == old(self).pos,
            final(self).inner == old(self).inner,
            final(self).data == old(self).data,
            final(self).window == old(self).window,
            final(self).start == final(self).window.position,
            final(output)@ == old(output)@ + old(self).data@.skip(old(self).data@.len() - n),
    {
        let ghost tail = self.data@.skip(self.data@.len() - n);
        let ghost first = self.start;
        proof {
            assert(old(output)@ + tail.take(0) =~= old(output)@);
        }
        while self.start < self.window.position
            invariant
                self.inv(),
                self.pos == old(self).pos,
                self.inner == old(self).inner,
                self.data == old(self).data,
                self.window == old(self).window,
                self.window.position == self.window.limit,
                first <= self.start <= self.window.position,
                first + n == self.window.position,
                tail == self.data@.skip(self.data@.len() - n),
                output@ == old(output)@ + tail.take(self.start - first),
            decreases self.window.position - self.start,
        {
            proof {
                let k = self.start - first;
                assert(tail.take(k + 1) =~= tail.take(k).push(tail[k]));
                assert(tail[k] == self.window.window@[self.start as int]);
            }
            output.push(self.window.window[self.start]);
            self.start += 1;
        }
        proof {
            assert(tail.take(n as int) =~= tail);
        }
    }

    /// Expand a match of `len` bytes that starts `ofs` bytes back.
    fn expand_match(&mut self, ofs: usize, len: usize)
        requires
            old(self).wf(),
            ofs <= old(self).data@.len(),
            ofs < WINDOW_SIZE,
            MIN_MATCH <= len <= MAX_LENGTH,
        ensures
            final(self).inv(),
            final(self).pos == old(self).pos,
            final(self).inner == old(self).inner,
            final(self).window.position == final(self).window.limit,
            final(self).start + len == final(self).window.position,
            final(self).window.position == final(self).data@.len() || final(self).window.position
                >= WINDOW_SIZE,
            final(self).data@ == copied(old(self).data@, ofs as nat, len as nat),
    {
        let mut i: usize = 0;
        while i < len
            invariant
                i <= len <= MAX_LENGTH,
                self.inv(),
                old(self).wf(),
                ofs <= old(self).data@.len(),
                ofs < WINDOW_SIZE,
                self.pos == old(self).pos,
                self.inner == old(self).inner,
                self.start == old(self).start,
                self.window.position == old(self).window.position,
                self.window.limit == self.window.position + i,
                self.data@ == copied(old(self).data@, ofs as nat, i as nat),
            decreases len - i,
        {
            proof {
                lemma_copied(old(self).data@, ofs as nat, i as nat);
            }
            let c = self.window.window[self.window.position - ofs + i];
            self.push(c);
            i += 1;
        }
        proof {
            lemma_copied(old(self).data@, ofs as nat, len as nat);
        }
        self.advance(len);
    }

    /// Expand the whole stream and append the bytes that it stands for to
    /// `output`.  Returns the number of bytes appended.  Fails where the
    /// stream is broken; the bytes up to the break are appended all the
    /// same.
    pub fn read_to_end(&mut self, output: &mut Vec<u8>) -> (r: Result<usize, Error>)
        requires
            old(self).wf(),
        ensures
            final(self).wf(),
            final(self).data() == expanded(old(self).data(), old(self).input(), 0, 0),
            final(output)@ == old(output)@ + final(self).data().skip(
                old(self).data().len() as int,
            ),
            broken(old(self).data(), old(self).input(), 0, 0) ==> r == Err::<usize, Error>(
                Error::UnexpectedEof,
            ),
            !broken(old(self).data(), old(self).input(), 0, 0) ==> r == Ok::<usize, Error>(
                (final(self).data().len() - old(self).data().len()) as usize,
            ),
    {
        let begin: usize = output.len();
        let ghost goal = expanded(self.data@, self.input(), 0, 0);
        let ghost fails = broken(self.data@, self.input(), 0, 0);
        let ghost d0 = self.data@;
        proof {
            assert(d0.skip(d0.len() as int) =~= Seq::<u8>::empty());
            assert(old(output)@ + Seq::<u8>::empty() =~= old(output)@);
        }
        loop
            invariant
                self.wf(),
                d0 == old(self).data(),
                begin == old(output)@.len(),
                goal == expanded(old(self).data(), old(self).input(), 0, 0),
                fails == broken(old(self).data(), old(self).input(), 0, 0),
                goal == expanded(self.data@, self.input(), 0, 0),
                fails == broken(self.data@, self.input(), 0, 0),
                d0.len() <= self.data@.len(),
                output@ == old(output)@ + self.data@.skip(d0.len() as int),
            decreases self.input().len(),
        {
            let ghost len0 = self.input().len();
            let token = match self.getc() {
                Ok(Some(tok)) => tok,
                _ => {
                    return Ok(output.len() - begin);
                },
            };
            let mut mask: u8 = 0x80;
            let mut i: usize = 0;
            while i < 8
                invariant
                    i <= 8,
                    i < 8 ==> mask == weight(i as u8),
                    self.wf(),
                    self.input().len() < len0,
                    d0 == old(self).data(),
                    begin == old(output)@.len(),
                    goal == expanded(old(self).data(), old(self).input(), 0, 0),
                    fails == broken(old(self).data(), old(self).input(), 0, 0),
                    goal == expanded(self.data@, self.input(), token, (8 - i) as nat),
                    fails == broken(self.data@, self.input(), token, (8 - i) as nat),
                    d0.len() <= self.data@.len(),
                    output@ == old(output)@ + self.data@.skip(d0.len() as int),
                decreases 8 - i,
            {
                proof {
                    lemma_mask_ops(token, i as u8);
                }
                let ghost here = self.input();
                let ghost seen = self.data@;
                let ghost n: nat;
                if token & mask != 0 {
                    match self.getc() {
                        Ok(Some(lit)) => {
                            self.push(lit);
                            self.advance(1);
                            proof {
                                n = 1;
                            }
                        },
                        _ => {
                            return Err(Error::UnexpectedEof);
                        },
                    }
                } else {
                    let b1 = match self.getc() {
                        Ok(Some(b1)) => b1,
                        _ => {
                            return Ok(output.len() - begin);
                        },
                    };
                    let b2 = match self.getc() {
                        Ok(Some(b2)) => b2,
                        _ => {
                            return Err(Error::UnexpectedEof);
                        },
                    };
                    let w1 = b1 as usize;
                    let w2 = b2 as usize;
                    assert((w1 >> 4) == w1 / 16 && (w1 & 0x0f) | (w2 << 4) == w1 % 16 + w2 * 16
                        && (w1 & 0x0f) | (w2 << 4) < 4096) by (bit_vector)
                        requires
                            w1 < 256,
                            w2 < 256,
                    ;

                    let len = (w1 >> 4) + MIN_MATCH;
                    let ofs = (w1 & 0x0f) | (w2 << 4);
                    proof {
                        assert(here.skip(1)[0] == here[1]);
                        assert(here.skip(1).skip(1) =~= here.skip(2));
                    }
                    if ofs > self.window.position {
                        return Err(Error::UnexpectedEof);
                    }
                    self.expand_match(ofs, len);
                    proof {
                        n = len as nat;
                        lemma_copied(seen, ofs as nat, len as nat);
                    }
                }
                proof {
                    assert(self.data@.skip(d0.len() as int) =~= seen.skip(d0.len() as int)
                        + self.data@.skip(self.data@.len() - n)) by {
                        assert(self.data@.take(seen.len() as int) =~= seen);
                    }
                }
                self.copy_out(output, Ghost(n));
                mask = mask >> 1;
                i += 1;
            }
        }
    }
}

/// Compress `input` and append the compressed data to `output`.  What is
/// appended is a whole stream that stands for `input`.
pub fn compress(input: &[u8], output: Vec<u8>) -> (r: Result<Vec<u8>, Error>)
    ensures
        r matches Ok(out) && out@.len() > output@.len() && out@.take(output@.len() as int)
            == output@ && decodes_to(out@.skip(output@.len() as int), input@),
{
    let mut cw = CompressWriter::new(output);
    let _ = cw.write(input);
    let ghost mid = cw.out();
    let _ = cw.flush();
    proof {
        assert(cw.out().take(output@.len() as int) =~= mid.take(output@.len() as int));
        assert(Seq::<u8>::empty() + input@ =~= input@);
    }
    Ok(cw.to_inner())
}

/// Decompress the data in `input` and append the decompressed bytes to
/// `output`.  Fails where the stream is broken.
pub fn decompress(input: &[u8], output: Vec<u8>) -> (r: Result<Vec<u8>, Error>)
    ensures
        !broken(Seq::empty(), input@, 0, 0) ==> (r matches Ok(out) && out@ == output@ + expanded(
            Seq::empty(),
            input@,
            0,
            0,
        )),
        broken(Seq::empty(), input@, 0, 0) ==> (r matches Err(e) && e == Error::UnexpectedEof),
{
    let mut out = output;
    let mut cr = DecompressReader::new(input);
    let r = cr.read_to_end(&mut out);
    proof {
        assert(cr.data().skip(0) =~= cr.data());
    }
    match r {
        Ok(_) => Ok(out),
        Err(e) => Err(e),
    }
}

} // verus!
