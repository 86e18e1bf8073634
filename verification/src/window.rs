//! A sliding window over a byte stream.
//!
//! The window is a byte buffer of twice the size of the window proper plus
//! the look-ahead space:
//!
//! ```text
//! +------------------------------+------------------------------+-----+
//! |abcdefghijklmnopqrstuvwxyz    |                              |     |
//! +------------------------------+------------------------------+-----+
//!  --------------------p-----l
//! ```
//!
//! `limit` is the number of bytes in the buffer and `position` the index of
//! the current byte.  The bytes before `position`, at most `window_size` of
//! them, are the look-back window; the bytes from `position` on, at most
//! `lookahead_size` of them, the look-ahead buffer.  When `position` reaches
//! the end of the second window-sized part, the buffer slides down by the
//! size of the window.

use vstd::prelude::*;

verus! {

/// A sliding window with a look-ahead buffer.
pub struct SlidingWindow {
    pub window: Vec<u8>,
    pub position: usize,
    pub limit: usize,
    pub window_size: usize,
    pub lookahead_size: usize,
    pub window_buffer_size: usize,
}

/// The smaller of two numbers.
pub open spec fn min(a: int, b: int) -> int {
    if a <= b {
        a
    } else {
        b
    }
}

impl SlidingWindow {
    /// The number of bytes to look back at.
    pub open spec fn window_len(&self) -> int {
        self.window_size as int
    }

    /// The number of bytes to look ahead to.
    pub open spec fn lookahead(&self) -> int {
        self.lookahead_size as int
    }

    /// The buffer has its size, and `position` and `limit` lie within it in
    /// this order.
    pub open spec fn wf(&self) -> bool {
        &&& self.window_buffer_size == 2 * self.window_len() + self.lookahead()
        &&& self.window@.len() == self.window_buffer_size
        &&& self.position <= self.limit <= self.window_buffer_size
        &&& 0 <= self.window_len()
        &&& 0 <= self.lookahead()
    }

    /// The index at which the look-back window starts.
    pub open spec fn window_start(&self) -> int {
        if self.position > self.window_len() {
            self.position - self.window_len()
        } else {
            0
        }
    }

    /// The index at which the look-ahead buffer ends.
    pub open spec fn lookahead_end(&self) -> int {
        min(self.position + self.lookahead(), self.limit as int)
    }

    /// The buffer after it slid down: its first `window_size` bytes are
    /// gone, and as many zero bytes stand at its end.
    pub open spec fn slid(&self) -> Seq<u8> {
        self.window@.subrange(self.window_len(), self.window@.len() as int) + Seq::new(
            self.window_len() as nat,
            |i: int| 0u8,
        )
    }

    /// Create a new sliding window of `window_size` elements to look back at
    /// and `lookahead_size` elements to look ahead to.
    pub fn new(window_size: usize, lookahead_size: usize) -> (sw: SlidingWindow)
        requires
            2 * window_size + lookahead_size <= usize::MAX,
        ensures
            sw.wf(),
            sw.window_len() == window_size,
            sw.lookahead() == lookahead_size,
            sw.position == 0,
            sw.limit == 0,
            sw.window@ == Seq::new((2 * window_size + lookahead_size) as nat, |i: int| 0u8),
    {
        let buf_size = window_size * 2 + lookahead_size;
        let mut window: Vec<u8> = Vec::with_capacity(buf_size);
        let mut i: usize = 0;
        while i < buf_size
            invariant
                i <= buf_size,
                window@.len() == i,
                forall|j: int| 0 <= j < i ==> window@[j] == 0,
            decreases buf_size - i,
        {
            window.push(0);
            i += 1;
        }
        assert(window@ =~= Seq::new((2 * window_size + lookahead_size) as nat, |i: int| 0u8));
        SlidingWindow {
            window: window,
            window_buffer_size: buf_size,
            position: 0,
            limit: 0,
            window_size: window_size,
            lookahead_size: lookahead_size,
        }
    }

    /// Slide the buffer down by the size of the window.
    fn slide_down(&mut self)
        requires
            old(self).wf(),
            old(self).position >= old(self).window_len(),
        ensures
            final(self).wf(),
            final(self).window_len() == old(self).window_len(),
            final(self).lookahead() == old(self).lookahead(),
            final(self).window@ == old(self).slid(),
            final(self).position == old(self).position - old(self).window_len(),
            final(self).limit == old(self).limit - old(self).window_len(),
    {
        let keep = self.window_buffer_size - self.window_size;
        let mut i: usize = 0;
        while i < keep
            invariant
                i <= keep,
                keep == self.window_buffer_size - self.window_size,
                self.window@.len() == old(self).window@.len(),
                self.window_buffer_size == old(self).window_buffer_size,
                self.window_size == old(self).window_size,
                self.lookahead_size == old(self).lookahead_size,
                self.position == old(self).position,
                self.limit == old(self).limit,
                old(self).wf(),
                forall|j: int| 0 <= j < i ==> self.window@[j] == old(self).window@[j + self.window_size],
                forall|j: int| i <= j < self.window@.len() ==> self.window@[j] == old(self).window@[j],
            decreases keep - i,
        {
            let b = self.window[i + self.window_size];
            self.window.set(i, b);
            i += 1;
        }
        while i < self.window_buffer_size
            invariant
                keep <= i <= self.window_buffer_size,
                keep == self.window_buffer_size - self.window_size,
                self.window@.len() == old(self).window@.len(),
                self.window_buffer_size == old(self).window_buffer_size,
                self.window_size == old(self).window_size,
                self.lookahead_size == old(self).lookahead_size,
                self.position == old(self).position,
                self.limit == old(self).limit,
                old(self).wf(),
                forall|j: int| 0 <= j < keep ==> self.window@[j] == old(self).window@[j + self.window_size],
                forall|j: int| keep <= j < i ==> self.window@[j] == 0,
            decreases self.window_buffer_size - i,
        {
            self.window.set(i, 0);
            i += 1;
        }
        assert(self.window@ =~= old(self).slid());
        self.position -= self.window_size;
        self.limit -= self.window_size;
    }

    /// Push one element to the end of the window.  There must be free space
    /// for it: see `free_space`.
    pub fn push(&mut self, b: u8)
        requires
            old(self).wf(),
            old(self).limit < old(self).window_buffer_size,
        ensures
            final(self).wf(),
            final(self).window_len() == old(self).window_len(),
            final(self).lookahead() == old(self).lookahead(),
            final(self).window@ == old(self).window@.update(old(self).limit as int, b),
            final(self).limit == old(self).limit + 1,
            final(self).position == old(self).position,
    {
        self.window.set(self.limit, b);
        self.limit += 1;
    }

    /// Consume one element of the window.  This increments the pointer to
    /// the current element.  Return `true` if the operation resulted in
    /// shifting the window down, `false` otherwise.  The window must not be
    /// empty.
    pub fn advance(&mut self) -> (slid: bool)
        requires
            old(self).wf(),
            old(self).position < old(self).limit,
        ensures
            final(self).wf(),
            final(self).window_len() == old(self).window_len(),
            final(self).lookahead() == old(self).lookahead(),
            slid == (old(self).position + 1 >= 2 * old(self).window_len()),
            old(self).position < 2 * old(self).window_len() ==> final(self).position < 2 * old(self).window_len(),
            !slid ==> final(self).window@ == old(self).window@ && final(self).position == old(self).position + 1 && final(self).limit == old(self).limit,
            slid ==> final(self).window@ == old(self).slid() && final(self).position == old(self).position + 1 - old(self).window_len() && final(self).limit == old(self).limit - old(self).window_len(),
    {
        self.position += 1;
        if self.position >= 2 * self.window_size {
            self.slide_down();
            true
        } else {
            false
        }
    }

    /// Whether no element is left to consume.
    pub fn is_empty(&self) -> (empty: bool)
        ensures
            empty == (self.position == self.limit),
    {
        self.position == self.limit
    }

    /// Return the element at the current `position`, that is, the first
    /// element of the look-ahead buffer, which must not be empty.
    pub fn element(&self) -> (b: u8)
        requires
            self.wf(),
            self.position < self.limit,
        ensures
            b == self.window@[self.position as int],
    {
        self.window[self.position]
    }

    /// Return a slice for the look-back window.
    pub fn window_slice(&self) -> (s: &[u8])
        requires
            self.wf(),
        ensures
            s@ == self.window@.subrange(self.window_start(), self.position as int),
    {
        let f = if self.position > self.window_size {
            self.position - self.window_size
        } else {
            0
        };
        vstd::slice::slice_subrange(self.window.as_slice(), f, self.position)
    }

    /// Return a slice for the look-ahead buffer.
    pub fn lookahead_slice(&self) -> (s: &[u8])
        requires
            self.wf(),
        ensures
            s@ == self.window@.subrange(self.position as int, self.lookahead_end()),
    {
        let l = if self.lookahead_size < self.limit - self.position {
            self.position + self.lookahead_size
        } else {
            self.limit
        };
        vstd::slice::slice_subrange(self.window.as_slice(), self.position, l)
    }

    /// Return a tuple with a slice for the complete current window,
    /// including the look-ahead buffer; and the index in the slice where the
    /// look-ahead buffer starts.
    pub fn view(&self) -> (r: (&[u8], usize))
        requires
            self.wf(),
        ensures
            r.0@ == self.window@.subrange(self.window_start(), self.lookahead_end()),
            r.1 == self.position - self.window_start(),
    {
        let f = if self.position > self.window_size {
            self.position - self.window_size
        } else {
            0
        };
        let l = if self.lookahead_size < self.limit - self.position {
            self.position + self.lookahead_size
        } else {
            self.limit
        };
        let pos = self.position - f;
        (vstd::slice::slice_subrange(self.window.as_slice(), f, l), pos)
    }

    /// Return a tuple with a mutable slice for the complete current window,
    /// including the look-ahead buffer; and the index in the slice where the
    /// look-ahead buffer starts.
    pub fn view_mut(&mut self) -> (r: (&mut [u8], usize))
        requires
            old(self).wf(),
        ensures
            r.0@ == old(self).window@.subrange(old(self).window_start(), old(self).lookahead_end()),
            r.1 == old(self).position - old(self).window_start(),
            final(self).window@ == old(self).window@.subrange(0, old(self).window_start())
                + final(r.0)@ + old(self).window@.subrange(
                old(self).lookahead_end(),
                old(self).window@.len() as int,
            ),
            final(self).position == old(self).position,
            final(self).limit == old(self).limit,
            final(self).window_size == old(self).window_size,
            final(self).lookahead_size == old(self).lookahead_size,
            final(self).window_buffer_size == old(self).window_buffer_size,
    {
        let f = if self.position > self.window_size {
            self.position - self.window_size
        } else {
            0
        };
        let l = if self.lookahead_size < self.limit - self.position {
            self.position + self.lookahead_size
        } else {
            self.limit
        };
        let pos = self.position - f;
        let (_, rest) = self.window.as_mut_slice().split_at_mut(f);
        let (mid, _) = rest.split_at_mut(l - f);
        proof {
            assert(mid@ =~= old(self).window@.subrange(f as int, l as int));
        }
        (mid, pos)
    }

    /// Return the number of elements that can be pushed to the window before
    /// it overflows.
    pub fn free_space(&self) -> (n: usize)
        requires
            self.wf(),
        ensures
            n == self.window_buffer_size - self.limit,
    {
        self.window_buffer_size - self.limit
    }

    /// Return the current length of the look-ahead buffer.
    pub fn lookahead_len(&self) -> (n: usize)
        requires
            self.wf(),
        ensures
            n == min(self.limit - self.position, self.lookahead()),
    {
        if self.limit - self.position < self.lookahead_size {
            self.limit - self.position
        } else {
            self.lookahead_size
        }
    }
}

} // verus!
