//! A static Huffman coder.
//!
//! The input is coded in blocks of up to 64 KiB.  A block starts with the
//! frequencies of its byte values, as runs of values that occur: the first
//! and the last value of a run in one byte each and the frequencies of the
//! values of the run in two bytes each, a zero byte after the last run.  The
//! codes of the bytes follow, and the code of a marker for the end of the
//! block or of the stream.  Compressor and decompressor build the same tree
//! from the frequencies.
//!
//! Based on the static Huffman coder in Mark Nelson, Jean-Loup Gailly: The
//! Data Compression Book, 2nd Edition, M&T Books, 1996.

use vstd::prelude::*;
use crate::bitfile::{BitReader, BitSource, BitWriter};
use crate::bits::{extends, lemma_extends_more, lemma_extends_self, lemma_extends_trans};
use crate::error::Error;

pub mod adaptive;

verus! {

/// The number of bytes of a block.
pub const BLOCK_SIZE: usize = 65536;

/// The symbol that ends a block.
pub const EOB: usize = 256;

/// The symbol that ends the stream.
pub const EOF: usize = 257;

/// The largest frequency of a byte value; larger ones are scaled down.
pub const MAX_COUNT: usize = 0x1fff;

/// The number of symbols.
pub const SYMBOLS: usize = 258;

/// The number of nodes of the tree, the guard node included.
pub const NODES: usize = 517;

/// The index of the guard node, whose weight no node that is joined to
/// another reaches.
pub const LAST_NODE: usize = 516;

/// The weight of the guard node.
pub const GUARD_WEIGHT: usize = 0xffff;

/// The length that no code reaches.
pub const CODE_LEN_LIMIT: usize = 20;

pub type Symbol = u32;

/// A node of the tree.
#[derive(Clone, Copy)]
pub struct Node {
    pub weight: usize,
    pub child0: usize,
    pub child1: usize,
    pub parent: usize,
    pub active: bool,
}

/// The children of every inner node stand below it in the table, so that
/// the way down from any node ends.
pub open spec fn children_below(tree: Seq<Node>) -> bool {
    &&& tree.len() == NODES
    &&& forall|i: int|
        SYMBOLS <= i < NODES ==> (#[trigger] tree[i]).child0 < i && tree[i].child1 < i
}

/// The code that the way up from `node` to the root gives, where `code`
/// holds the `len` bits of the way up to `node` in its highest bits: each
/// step puts its bit before them, a one where the node is the second child
/// of its parent.  `None` where the way does not lead up to the root, the
/// node is the root itself, or the code would reach the length that is the
/// limit.
pub open spec fn code_up(tree: Seq<Node>, root: int, node: int, code: u64, len: int) -> Option<
    (u64, usize),
>
    decreases NODES - node,
{
    if node == root {
        if len == 0 {
            None
        } else {
            Some((code >> ((64 - len) as u64), len as usize))
        }
    } else if tree[node].parent <= node || tree[node].parent >= NODES || len + 1
        >= CODE_LEN_LIMIT {
        None
    } else {
        code_up(
            tree,
            root,
            tree[node].parent as int,
            if tree[tree[node].parent as int].child1 == node {
                (code >> 1) | (1u64 << 63)
            } else {
                code >> 1
            },
            len + 1,
        )
    }
}

/// The code of `sym` in the tree below `root`, and the number of its bits.
pub open spec fn code_of(tree: Seq<Node>, root: int, sym: int) -> Option<(u64, usize)> {
    code_up(tree, root, sym, 0, 0)
}

/// Every symbol that occurs has a code.
pub open spec fn all_coded(tree: Seq<Node>, root: int) -> bool {
    forall|s: int|
        0 <= s < SYMBOLS && tree[s].weight > 0 ==> (#[trigger] code_of(tree, root, s)) is Some
}

/// The table of the codes after the codes of the symbols that occur were
/// entered.
pub open spec fn with_codes(tree: Seq<Node>, root: int, codes: Seq<(u64, usize)>) -> Seq<
    (u64, usize),
> {
    Seq::new(
        SYMBOLS as nat,
        |s: int|
            if tree[s].weight > 0 {
                code_of(tree, root, s)->0
            } else {
                codes[s]
            },
    )
}

/// A node that stands for nothing.
pub open spec fn blank_node() -> Node {
    Node { weight: 0, child0: 0, child1: 0, parent: 0, active: false }
}

/// A table of nodes without a tree.
pub open spec fn blank_tree() -> Seq<Node> {
    Seq::new(NODES as nat, |j: int| blank_node())
}

/// The frequencies of an empty block: one for the end of the block and one
/// for the end of the stream.
pub open spec fn base_counts() -> Seq<usize> {
    Seq::new(
        SYMBOLS as nat,
        |j: int|
            if j == EOB || j == EOF {
                1usize
            } else {
                0usize
            },
    )
}

/// The frequencies of the byte values of `block`, with those of the two
/// ends.
pub open spec fn counted(block: Seq<u8>) -> Seq<usize>
    decreases block.len(),
{
    if block.len() == 0 {
        base_counts()
    } else {
        counted(block.drop_last()).update(
            block.last() as int,
            (counted(block.drop_last())[block.last() as int] + 1) as usize,
        )
    }
}

/// The largest of the first `n` frequencies.
pub open spec fn largest(freqs: Seq<usize>, n: int) -> usize
    decreases n,
{
    if n <= 0 {
        0
    } else if freqs[n - 1] > largest(freqs, n - 1) {
        freqs[n - 1]
    } else {
        largest(freqs, n - 1)
    }
}

/// The frequencies with those of the byte values and of the end of a block
/// halved, rounding up.
pub open spec fn halved(freqs: Seq<usize>) -> Seq<usize> {
    Seq::new(
        freqs.len(),
        |j: int|
            if j < EOF {
                ((freqs[j] + 1) / 2) as usize
            } else {
                freqs[j]
            },
    )
}

/// The frequencies halved until none of those that are halved is above the
/// limit.
pub open spec fn scaled(freqs: Seq<usize>) -> Seq<usize>
    decreases largest(freqs, EOF as int),
{
    if largest(freqs, EOF as int) > MAX_COUNT && largest(halved(freqs), EOF as int) < largest(
        freqs,
        EOF as int,
    ) {
        scaled(halved(freqs))
    } else {
        freqs
    }
}

/// The first place from `k` on, before `bound`, whose frequency is not
/// zero.
pub open spec fn skip_unused(freqs: Seq<usize>, k: int, bound: int) -> int
    decreases bound - k,
{
    if k < bound && freqs[k] == 0 {
        skip_unused(freqs, k + 1, bound)
    } else {
        k
    }
}

/// The first place from `k` on, among the byte values, whose frequency is
/// zero.
pub open spec fn skip_used(freqs: Seq<usize>, k: int) -> int
    decreases 256 - k,
{
    if k < 256 && freqs[k] != 0 {
        skip_used(freqs, k + 1)
    } else {
        k
    }
}

/// Where the run of frequencies that is looked at from `last` on ends, and
/// where the next run starts: a gap of up to three zeros does not end a
/// run.
pub open spec fn run_end(freqs: Seq<usize>, last: int) -> (int, int)
    decreases 256 - last,
{
    let end = skip_used(freqs, last) - 1;
    let next = skip_unused(freqs, end + 1, 256);
    if next >= 256 || next - end > 3 || next <= last {
        (end, next)
    } else {
        run_end(freqs, next)
    }
}

/// The frequencies from `i` to `last` as bits, sixteen for each.
pub open spec fn freq_bits(freqs: Seq<usize>, i: int, last: int) -> Seq<bool>
    decreases last + 1 - i,
{
    if i > last {
        Seq::empty()
    } else {
        crate::bits::value_bits(freqs[i] as u64, 16) + freq_bits(freqs, i + 1, last)
    }
}

/// The runs of frequencies from `first` on as bits: for each run its first
/// and its last byte value in eight bits each and its frequencies; a zero
/// byte ends them.
pub open spec fn run_bits(freqs: Seq<usize>, first: int) -> Seq<bool>
    decreases 256 - first,
{
    if first >= 256 || run_end(freqs, first + 1).1 <= first || run_end(freqs, first + 1).1 > 256 {
        crate::bits::value_bits(0, 8)
    } else {
        crate::bits::value_bits(first as u64, 8) + crate::bits::value_bits(
            run_end(freqs, first + 1).0 as u64,
            8,
        ) + freq_bits(freqs, first, run_end(freqs, first + 1).0) + run_bits(
            freqs,
            run_end(freqs, first + 1).1,
        )
    }
}

/// The table of the frequencies as it is written before a block.
pub open spec fn table_bits(freqs: Seq<usize>) -> Seq<bool> {
    run_bits(freqs, skip_unused(freqs, 0, 255))
}

/// The table after the symbols that occur were made leaves with their
/// frequencies as weights; with `clear`, the others are taken out of the
/// tree.
pub open spec fn with_leaves(tree: Seq<Node>, freqs: Seq<usize>, clear: bool) -> Seq<Node> {
    Seq::new(
        tree.len(),
        |i: int|
            if i < SYMBOLS && freqs[i] > 0 {
                Node { weight: freqs[i], active: true, ..tree[i] }
            } else if i < SYMBOLS && clear {
                Node { active: false, ..tree[i] }
            } else {
                tree[i]
            },
    )
}

/// The table with the weight of the guard node set.
pub open spec fn guarded(tree: Seq<Node>) -> Seq<Node> {
    tree.update(LAST_NODE as int, Node { weight: GUARD_WEIGHT, ..tree[LAST_NODE as int] })
}

/// The two lightest nodes among those in the tree before `n`, the lightest
/// first, where the search stands at `i` with `min1` and `min2` as the
/// lightest so far.  The guard node stands for none.
pub open spec fn lightest(tree: Seq<Node>, i: int, min1: usize, min2: usize, n: int) -> (
    usize,
    usize,
)
    decreases n - i,
{
    if i >= n {
        (min1, min2)
    } else if tree[i].active && tree[i].weight < tree[min1 as int].weight {
        lightest(tree, i + 1, i as usize, min1, n)
    } else if tree[i].active && tree[i].weight < tree[min2 as int].weight {
        lightest(tree, i + 1, min1, i as usize, n)
    } else {
        lightest(tree, i + 1, min1, min2, n)
    }
}

/// The table after the nodes at `min1` and `min2` were joined under a new
/// node at `next`.
pub open spec fn joined(tree: Seq<Node>, min1: int, min2: int, next: int) -> Seq<Node> {
    tree.update(min1, Node { active: false, parent: next as usize, ..tree[min1] }).update(
        min2,
        Node { active: false, parent: next as usize, ..tree[min2] },
    ).update(
        next,
        Node {
            weight: (tree[min1].weight + tree[min2].weight) as usize,
            active: true,
            child0: min1 as usize,
            child1: min2 as usize,
            ..tree[next]
        },
    )
}

/// The table after the two lightest nodes were joined under a new node at
/// `next` as long as there are two, and the place behind the node that was
/// made last.
pub open spec fn built(tree: Seq<Node>, next: int) -> (Seq<Node>, int)
    decreases LAST_NODE - next,
{
    if next >= LAST_NODE || lightest(tree, 0, LAST_NODE, LAST_NODE, next).1 == LAST_NODE {
        (tree, next)
    } else {
        built(
            joined(
                tree,
                lightest(tree, 0, LAST_NODE, LAST_NODE, next).0 as int,
                lightest(tree, 0, LAST_NODE, LAST_NODE, next).1 as int,
                next,
            ),
            next + 1,
        )
    }
}

/// The tree for the frequencies `freqs`, built in the table `tree`, and its
/// root.
pub open spec fn tree_for(tree: Seq<Node>, freqs: Seq<usize>, clear: bool) -> (Seq<Node>, int) {
    (
        built(guarded(with_leaves(tree, freqs, clear)), SYMBOLS as int).0,
        built(guarded(with_leaves(tree, freqs, clear)), SYMBOLS as int).1 - 1,
    )
}

/// A table of nodes without a tree.
fn empty_tree() -> (tree: Vec<Node>)
    ensures
        tree@ == blank_tree(),
        children_below(tree@),
{
    let mut tree: Vec<Node> = Vec::new();
    let mut i: usize = 0;
    while i < NODES
        invariant
            i <= NODES,
            tree@.len() == i,
            forall|j: int| 0 <= j < i ==> (#[trigger] tree@[j]) == blank_node(),
        decreases NODES - i,
    {
        tree.push(Node { weight: 0, child0: 0, child1: 0, parent: 0, active: false });
        i += 1;
    }
    proof {
        assert(tree@ =~= blank_tree());
    }
    tree
}

/// A table of `n` zeros.
fn zeros(n: usize) -> (v: Vec<usize>)
    ensures
        v@.len() == n,
        v@ == Seq::new(n as nat, |j: int| 0usize),
        forall|j: int| 0 <= j < n ==> v@[j] == 0,
{
    let mut v: Vec<usize> = Vec::new();
    let mut i: usize = 0;
    while i < n
        invariant
            i <= n,
            v@.len() == i,
            forall|j: int| 0 <= j < i ==> v@[j] == 0,
        decreases n - i,
    {
        v.push(0);
        i += 1;
    }
    proof {
        assert(v@ =~= Seq::new(n as nat, |j: int| 0usize));
    }
    v
}

/// Take all nodes out of the tree.
fn reset_tree(tree: &mut Vec<Node>)
    requires
        old(tree)@.len() == NODES,
    ensures
        final(tree)@ == blank_tree(),
        children_below(final(tree)@),
        forall|j: int| 0 <= j < NODES ==> !(#[trigger] final(tree)@[j]).active,
{
    let mut i: usize = 0;
    while i < NODES
        invariant
            i <= NODES,
            tree@.len() == NODES,
            forall|j: int| 0 <= j < i ==> (#[trigger] tree@[j]) == blank_node(),
        decreases NODES - i,
    {
        tree.set(i, Node { weight: 0, child0: 0, child1: 0, parent: 0, active: false });
        i += 1;
    }
    proof {
        assert(tree@ =~= blank_tree());
    }
}

/// Build the tree for the frequencies `freqs`: the symbols that occur are
/// its leaves, and the two lightest nodes are joined under a new node as
/// long as there are two whose weights are below that of the guard node.
/// Returns the index of the node that was made last, the root.
fn build(freqs: &Vec<usize>, tree: &mut Vec<Node>, clear: bool) -> (root: usize)
    requires
        freqs@.len() == SYMBOLS,
        children_below(old(tree)@),
    ensures
        final(tree)@ == tree_for(old(tree)@, freqs@, clear).0,
        root == tree_for(old(tree)@, freqs@, clear).1,
        children_below(final(tree)@),
        EOF <= root < LAST_NODE,
{
    let mut i: usize = 0;
    while i < SYMBOLS
        invariant
            i <= SYMBOLS,
            freqs@.len() == SYMBOLS,
            children_below(tree@),
            old(tree)@.len() == NODES,
            forall|j: int|
                0 <= j < i ==> tree@[j] == with_leaves(old(tree)@, freqs@, clear)[j],
            forall|j: int| i <= j < NODES ==> tree@[j] == old(tree)@[j],
        decreases SYMBOLS - i,
    {
        let mut node = tree[i];
        if freqs[i] > 0 {
            node.weight = freqs[i];
            node.active = true;
            tree.set(i, node);
        } else if clear {
            node.active = false;
            tree.set(i, node);
        }
        i += 1;
    }
    proof {
        assert(tree@ =~= with_leaves(old(tree)@, freqs@, clear));
    }
    let mut guard = tree[LAST_NODE];
    guard.weight = GUARD_WEIGHT;
    tree.set(LAST_NODE, guard);
    let ghost goal = built(tree@, SYMBOLS as int);
    let mut next_free: usize = SYMBOLS;
    while next_free < LAST_NODE
        invariant
            SYMBOLS <= next_free <= LAST_NODE,
            children_below(tree@),
            tree@[LAST_NODE as int].weight == GUARD_WEIGHT,
            goal == built(guarded(with_leaves(old(tree)@, freqs@, clear)), SYMBOLS as int),
            goal == built(tree@, next_free as int),
        ensures
            SYMBOLS <= next_free <= LAST_NODE,
            goal == (tree@, next_free as int),
        decreases LAST_NODE - next_free,
    {
        let mut min1: usize = LAST_NODE;
        let mut min2: usize = LAST_NODE;
        let ghost found = lightest(tree@, 0, LAST_NODE, LAST_NODE, next_free as int);

        let mut i: usize = 0;
        while i < next_free
            invariant
                i <= next_free < LAST_NODE,
                tree@.len() == NODES,
                tree@[LAST_NODE as int].weight == GUARD_WEIGHT,
                min1 <= LAST_NODE,
                min2 <= LAST_NODE,
                min1 < LAST_NODE ==> min1 < i,
                min2 < LAST_NODE ==> min2 < i && min1 < LAST_NODE && min1 != min2,
                tree@[min1 as int].weight <= GUARD_WEIGHT,
                tree@[min2 as int].weight <= GUARD_WEIGHT,
                found == lightest(tree@, i as int, min1, min2, next_free as int),
            decreases next_free - i,
        {
            if tree[i].active {
                if tree[i].weight < tree[min1].weight {
                    min2 = min1;
                    min1 = i;
                } else if tree[i].weight < tree[min2].weight {
                    min2 = i;
                }
            }
            i += 1;
        }
        if min2 == LAST_NODE {
            break ;
        }
        let ghost before = tree@;
        let mut n1 = tree[min1];
        let mut n2 = tree[min2];
        let mut joined = tree[next_free];
        joined.weight = n1.weight + n2.weight;
        joined.active = true;
        n1.active = false;
        n2.active = false;
        n1.parent = next_free;
        n2.parent = next_free;
        joined.child0 = min1;
        joined.child1 = min2;
        tree.set(min1, n1);
        tree.set(min2, n2);
        tree.set(next_free, joined);
        proof {
            assert(tree@ =~= self::joined(before, min1 as int, min2 as int, next_free as int));
        }
        next_free += 1;
    }
    next_free - 1
}

/// A Huffman compressor.
pub struct CompressWriter {
    inner: BitWriter,
    block: Vec<u8>,
    fill: usize,
    freqs: Vec<usize>,
    tree: Vec<Node>,
    codes: Vec<(u64, usize)>,
}

impl CompressWriter {
    /// The bits of the compressed stream as written so far.
    pub closed spec fn bits(&self) -> Seq<bool> {
        self.inner.bits()
    }

    /// The bytes of the compressed stream that have reached the buffer.
    pub closed spec fn bytes(&self) -> Seq<u8> {
        self.inner.bytes()
    }

    /// The bytes that were taken in and wait for their block.
    pub closed spec fn waiting(&self) -> Seq<u8> {
        self.block@.take(self.fill as int)
    }

    /// The compressor is in order.
    pub closed spec fn wf(&self) -> bool {
        &&& self.inner.wf()
        &&& self.block@.len() == BLOCK_SIZE
        &&& self.fill <= BLOCK_SIZE
        &&& self.freqs@.len() == SYMBOLS
        &&& self.codes@.len() == SYMBOLS
        &&& children_below(self.tree@)
    }

    /// Create a new compressor that appends to `inner`.
    pub fn new(inner: Vec<u8>) -> (w: CompressWriter)
        ensures
            w.wf(),
            w.bytes() == inner@,
            w.bits() == crate::bits::bytes_to_bits(inner@),
            w.waiting() == Seq::<u8>::empty(),
    {
        let mut block: Vec<u8> = Vec::new();
        let mut i: usize = 0;
        while i < BLOCK_SIZE
            invariant
                i <= BLOCK_SIZE,
                block@.len() == i,
            decreases BLOCK_SIZE - i,
        {
            block.push(0);
            i += 1;
        }
        let mut codes: Vec<(u64, usize)> = Vec::new();
        let mut i: usize = 0;
        while i < SYMBOLS
            invariant
                i <= SYMBOLS,
                codes@.len() == i,
            decreases SYMBOLS - i,
        {
            codes.push((0, 0));
            i += 1;
        }
        let w = CompressWriter {
            inner: BitWriter::new(inner),
            block: block,
            fill: 0,
            freqs: zeros(SYMBOLS),
            tree: empty_tree(),
            codes: codes,
        };
        proof {
            assert(w.bits() =~= crate::bits::bytes_to_bits(inner@));
            assert(w.waiting() =~= Seq::<u8>::empty());
        }
        w
    }

    /// Clear the frequencies, the tree and the codes.
    fn reset(&mut self)
        requires
            old(self).wf(),
        ensures
            final(self).wf(),
            final(self).inner == old(self).inner,
            final(self).block == old(self).block,
            final(self).fill == old(self).fill,
            forall|j: int| 0 <= j < SYMBOLS ==> (#[trigger] final(self).codes@[j]).1 == 0,
    {
        let mut i: usize = 0;
        while i < SYMBOLS
            invariant
                i <= SYMBOLS,
                self.wf(),
                self.inner == old(self).inner,
                self.block == old(self).block,
                self.fill == old(self).fill,
                forall|j: int| 0 <= j < i ==> (#[trigger] self.codes@[j]).1 == 0,
            decreases SYMBOLS - i,
        {
            self.freqs.set(i, 0);
            self.codes.set(i, (0, 0));
            i += 1;
        }
        reset_tree(&mut self.tree);
    }

    /// The largest frequency of a byte value or of the end of a block, which
    /// are all at most `bound`.
    fn max_count(&self, Ghost(bound): Ghost<int>) -> (max: usize)
        requires
            self.freqs@.len() == SYMBOLS,
            forall|j: int| 0 <= j < EOF ==> #[trigger] self.freqs@[j] <= bound,
        ensures
            max == largest(self.freqs@, EOF as int),
            max <= bound || max == 0,
            forall|j: int| 0 <= j < EOF ==> #[trigger] self.freqs@[j] <= max,
    {
        let mut max_count: usize = 0;
        let mut i: usize = 0;
        while i < EOF
            invariant
                i <= EOF,
                max_count == largest(self.freqs@, i as int),
                max_count <= bound || max_count == 0,
                self.freqs@.len() == SYMBOLS,
                forall|j: int| 0 <= j < EOF ==> #[trigger] self.freqs@[j] <= bound,
                forall|j: int| 0 <= j < i ==> #[trigger] self.freqs@[j] <= max_count,
            decreases EOF - i,
        {
            if self.freqs[i] > max_count {
                max_count = self.freqs[i];
            }
            i += 1;
        }
        max_count
    }

    /// Count the byte values of the block, and halve the frequencies,
    /// rounding up, until none is above the limit.
    fn count_freqs(&mut self)
        requires
            old(self).wf(),
        ensures
            final(self).wf(),
            final(self).freqs@ == scaled(counted(old(self).waiting())),
            final(self).inner == old(self).inner,
            final(self).block == old(self).block,
            final(self).fill == old(self).fill,
            final(self).codes == old(self).codes,
            final(self).tree == old(self).tree,
    {
        let mut i: usize = 0;
        while i < EOB
            invariant
                i <= EOB,
                self.wf(),
                self.inner == old(self).inner,
                self.block == old(self).block,
                self.fill == old(self).fill,
                self.codes == old(self).codes,
                self.tree == old(self).tree,
                forall|j: int| 0 <= j < i ==> #[trigger] self.freqs@[j] == 0,
            decreases EOB - i,
        {
            self.freqs.set(i, 0);
            i += 1;
        }
        self.freqs.set(EOF, 1);
        self.freqs.set(EOB, 1);
        proof {
            assert(self.freqs@ =~= base_counts());
            assert(self.block@.take(0) =~= Seq::<u8>::empty());
        }
        let mut i: usize = 0;
        while i < self.fill
            invariant
                i <= self.fill,
                self.wf(),
                self.inner == old(self).inner,
                self.block == old(self).block,
                self.fill == old(self).fill,
                self.codes == old(self).codes,
                self.tree == old(self).tree,
                self.freqs@ == counted(self.block@.take(i as int)),
                forall|j: int| 0 <= j < EOF ==> #[trigger] self.freqs@[j] <= i + 1,
            decreases self.fill - i,
        {
            let c = self.block[i] as usize;
            assert(self.freqs@[c as int] <= i + 1);
            let f = self.freqs[c] + 1;
            self.freqs.set(c, f);
            proof {
                assert(self.block@.take(i + 1).drop_last() =~= self.block@.take(i as int));
                assert(self.freqs@ =~= counted(self.block@.take(i + 1)));
            }
            i += 1;
        }
        let ghost goal = scaled(self.freqs@);
        let mut max_count = self.max_count(Ghost(BLOCK_SIZE + 1));
        while max_count > MAX_COUNT
            invariant
                max_count <= BLOCK_SIZE + 1,
                max_count == largest(self.freqs@, EOF as int),
                goal == scaled(self.freqs@),
                self.wf(),
                self.inner == old(self).inner,
                self.block == old(self).block,
                self.fill == old(self).fill,
                self.codes == old(self).codes,
                self.tree == old(self).tree,
                forall|j: int| 0 <= j < EOF ==> #[trigger] self.freqs@[j] <= max_count,
            decreases max_count,
        {
            let ghost before = max_count;
            let ghost were = self.freqs@;
            let mut i: usize = 0;
            while i < EOF
                invariant
                    i <= EOF,
                    MAX_COUNT < before <= BLOCK_SIZE + 1,
                    self.wf(),
                    were.len() == SYMBOLS,
                    self.inner == old(self).inner,
                    self.block == old(self).block,
                    self.fill == old(self).fill,
                    self.codes == old(self).codes,
                    self.tree == old(self).tree,
                    forall|j: int| 0 <= j < i ==> #[trigger] self.freqs@[j] == halved(were)[j],
                    forall|j: int| i <= j < SYMBOLS ==> #[trigger] self.freqs@[j] == were[j],
                    forall|j: int| 0 <= j < EOF ==> #[trigger] were[j] <= before,
                    forall|j: int| 0 <= j < i ==> #[trigger] self.freqs@[j] <= (before + 1) / 2,
                    forall|j: int| i <= j < EOF ==> #[trigger] self.freqs@[j] <= before,
                decreases EOF - i,
            {
                assert(self.freqs@[i as int] <= before);
                let f = (self.freqs[i] + 1) / 2;
                self.freqs.set(i, f);
                i += 1;
            }
            proof {
                assert(self.freqs@ =~= halved(were));
            }
            max_count = self.max_count(Ghost((before + 1) / 2));
        }
    }

    /// Build the tree for the frequencies of the block and return its root.
    fn build_tree(&mut self) -> (root: usize)
        requires
            old(self).wf(),
        ensures
            final(self).wf(),
            final(self).inner == old(self).inner,
            final(self).block == old(self).block,
            final(self).fill == old(self).fill,
            final(self).codes == old(self).codes,
            final(self).freqs == old(self).freqs,
            EOF <= root < LAST_NODE,
    {
        build(&self.freqs, &mut self.tree, false)
    }

    /// The code of `sym`: the way from the root down to its leaf, one bit
    /// for each step, and the number of its bits.  There is none where the
    /// leaf does not hang below the root, or the code would reach the
    /// length that is the limit.
    fn calc_code(&self, root: usize, sym: Symbol) -> (r: Option<(u64, usize)>)
        requires
            self.wf(),
            sym < SYMBOLS,
            root < NODES,
        ensures
            r == code_of(self.tree@, root as int, sym as int),
            r matches Some(code) ==> 0 < code.1 < CODE_LEN_LIMIT,
    {
        let ghost goal = code_of(self.tree@, root as int, sym as int);
        let mut node: usize = sym as usize;
        let mut code: u64 = 0;
        let mut code_len: usize = 0;
        while node != root
            invariant
                node < NODES,
                code_len < CODE_LEN_LIMIT,
                self.wf(),
                goal == code_of(self.tree@, root as int, sym as int),
                goal == code_up(self.tree@, root as int, node as int, code, code_len as int),
            decreases NODES - node,
        {
            let parent = self.tree[node].parent;
            if parent <= node || parent >= NODES || code_len + 1 >= CODE_LEN_LIMIT {
                return None;
            }
            code = code >> 1;
            if self.tree[parent].child1 == node {
                code = code | (1u64 << 63);
            }
            code_len += 1;
            node = parent;
        }
        if code_len == 0 {
            return None;
        }
        code = code >> ((64 - code_len) as u64);
        Some((code, code_len))
    }

    /// Work out the codes of all symbols that occur.  Fails where one of
    /// them has no code.
    fn calc_codes(&mut self, root: usize) -> (r: Result<(), Error>)
        requires
            old(self).wf(),
            root < NODES,
            forall|j: int| 0 <= j < SYMBOLS ==> (#[trigger] old(self).codes@[j]).1 < CODE_LEN_LIMIT,
        ensures
            final(self).wf(),
            final(self).inner == old(self).inner,
            final(self).block == old(self).block,
            final(self).fill == old(self).fill,
            final(self).freqs == old(self).freqs,
            final(self).tree == old(self).tree,
            all_coded(old(self).tree@, root as int) ==> r is Ok && final(self).codes@
                == with_codes(old(self).tree@, root as int, old(self).codes@),
            !all_coded(old(self).tree@, root as int) ==> r == Err::<(), Error>(Error::CodeTooLong),
            r matches Err(e) ==> e == Error::CodeTooLong,
            forall|j: int| 0 <= j < SYMBOLS ==> (#[trigger] final(self).codes@[j]).1 < CODE_LEN_LIMIT,
    {
        let mut i: usize = 0;
        while i < SYMBOLS
            invariant
                i <= SYMBOLS,
                root < NODES,
                self.wf(),
                self.inner == old(self).inner,
                self.block == old(self).block,
                self.fill == old(self).fill,
                self.freqs == old(self).freqs,
                self.tree == old(self).tree,
                old(self).codes@.len() == SYMBOLS,
                forall|j: int| 0 <= j < SYMBOLS ==> (#[trigger] self.codes@[j]).1 < CODE_LEN_LIMIT,
                forall|j: int|
                    0 <= j < i && self.tree@[j].weight > 0 ==> (#[trigger] code_of(
                        self.tree@,
                        root as int,
                        j,
                    )) is Some,
                forall|j: int|
                    0 <= j < i ==> self.codes@[j] == with_codes(
                        self.tree@,
                        root as int,
                        old(self).codes@,
                    )[j],
                forall|j: int| i <= j < SYMBOLS ==> self.codes@[j] == old(self).codes@[j],
            decreases SYMBOLS - i,
        {
            if self.tree[i].weight > 0 {
                match self.calc_code(root, i as Symbol) {
                    Some(code) => {
                        self.codes.set(i, code);
                    },
                    None => {
                        proof {
                            assert(code_of(self.tree@, root as int, i as int) is None);
                        }
                        return Err(Error::CodeTooLong);
                    },
                }
            }
            i += 1;
        }
        proof {
            assert(self.codes@ =~= with_codes(old(self).tree@, root as int, old(self).codes@));
        }
        Ok(())
    }

    /// Write `count` bits of `value`.
    fn put(&mut self, value: u64, count: usize, Ghost(start): Ghost<Seq<bool>>)
        requires
            old(self).wf(),
            count <= 64,
            extends(old(self).bits(), start),
        ensures
            final(self).wf(),
            final(self).block == old(self).block,
            final(self).fill == old(self).fill,
            final(self).freqs == old(self).freqs,
            final(self).codes == old(self).codes,
            final(self).tree == old(self).tree,
            final(self).bits() == old(self).bits() + crate::bits::value_bits(value, count as nat),
            extends(final(self).bits(), start),
    {
        let _ = self.inner.write_bits(value, count);
        proof {
            lemma_extends_more(old(self).bits(), crate::bits::value_bits(value, count as nat), start);
        }
    }

    /// Write the frequencies of the byte values as runs of values that
    /// occur.  A gap of up to three values that do not occur does not end a
    /// run.
    fn write_freqs(&mut self, Ghost(start): Ghost<Seq<bool>>) -> (r: Result<(), Error>)
        requires
            old(self).wf(),
            extends(old(self).bits(), start),
        ensures
            r is Ok,
            final(self).wf(),
            final(self).bits() == old(self).bits() + table_bits(old(self).freqs@),
            final(self).block == old(self).block,
            final(self).fill == old(self).fill,
            final(self).freqs == old(self).freqs,
            final(self).codes == old(self).codes,
            final(self).tree == old(self).tree,
            extends(final(self).bits(), start),
    {
        let ghost freqs = self.freqs@;
        let ghost bits0 = self.bits();
        let mut first: usize = 0;
        while first < 255 && self.freqs[first] == 0
            invariant
                first <= 255,
                self.freqs@.len() == SYMBOLS,
                skip_unused(self.freqs@, first as int, 255) == skip_unused(self.freqs@, 0, 255),
            decreases 255 - first,
        {
            first += 1;
        }
        let ghost goal = bits0 + table_bits(freqs);
        let ghost mut done: Seq<bool> = Seq::empty();
        proof {
            assert(bits0 + done =~= bits0);
            assert(bits0 + (done + run_bits(freqs, first as int)) =~= goal);
        }

        while first < 256
            invariant
                first <= 256,
                self.wf(),
                freqs == old(self).freqs@,
                bits0 == old(self).bits(),
                self.block == old(self).block,
                self.fill == old(self).fill,
                self.freqs == old(self).freqs,
                self.codes == old(self).codes,
                self.tree == old(self).tree,
                self.bits() == bits0 + done,
                goal == bits0 + (done + run_bits(freqs, first as int)),
                goal == bits0 + table_bits(freqs),
                extends(self.bits(), start),
            decreases 256 - first,
        {
            let mut last: usize = first + 1;
            let mut next: usize = first + 1;
            let ghost ends = run_end(freqs, first + 1);
            loop
                invariant_except_break
                    first < last <= 256,
                    ends == run_end(freqs, last as int),
                invariant
                    first < 256,
                    freqs == self.freqs@,
                    self.freqs@.len() == SYMBOLS,
                ensures
                    first <= last < 256,
                    last < next <= 256,
                    ends == (last as int, next as int),
                decreases 256 - last,
            {
                let ghost from = last;
                while last < 256 && self.freqs[last] != 0
                    invariant
                        first < last <= 256,
                        from <= last,
                        self.freqs@.len() == SYMBOLS,
                        skip_used(self.freqs@, last as int) == skip_used(self.freqs@, from as int),
                    decreases 256 - last,
                {
                    last += 1;
                }
                let ghost gap = last;
                last -= 1;
                next = last + 1;
                while next < 256 && self.freqs[next] == 0
                    invariant
                        last < next <= 256,
                        gap == last + 1,
                        gap == 256 || self.freqs@[gap as int] == 0,
                        self.freqs@.len() == SYMBOLS,
                        skip_unused(self.freqs@, next as int, 256) == skip_unused(
                            self.freqs@,
                            last + 1,
                            256,
                        ),
                    decreases 256 - next,
                {
                    next += 1;
                }
                if next == 256 {
                    break ;
                }
                if next - last > 3 {
                    break ;
                }
                last = next;
            }
            let ghost before_run = self.bits();
            self.put(first as u64, 8, Ghost(start));
            self.put(last as u64, 8, Ghost(start));
            let ghost head = crate::bits::value_bits(first as u64, 8) + crate::bits::value_bits(
                last as u64,
                8,
            );
            proof {
                assert(self.bits() =~= before_run + head);
                assert(freq_bits(freqs, last + 1, last as int) =~= Seq::<bool>::empty());
            }
            let ghost mut sent: Seq<bool> = Seq::empty();
            proof {
                assert(before_run + head + sent =~= before_run + head);
                assert(sent + freq_bits(freqs, first as int, last as int) =~= freq_bits(
                    freqs,
                    first as int,
                    last as int,
                ));
            }
            let mut i: usize = first;
            while i < last + 1
                invariant
                    first <= i <= last + 1,
                    last < 256,
                    self.wf(),
                    freqs == self.freqs@,
                    self.block == old(self).block,
                    self.fill == old(self).fill,
                    self.freqs == old(self).freqs,
                    self.codes == old(self).codes,
                    self.tree == old(self).tree,
                    self.bits() == before_run + head + sent,
                    sent + freq_bits(freqs, i as int, last as int) == freq_bits(
                        freqs,
                        first as int,
                        last as int,
                    ),
                    extends(self.bits(), start),
                decreases last + 1 - i,
            {
                let ghost piece = crate::bits::value_bits(self.freqs@[i as int] as u64, 16);
                self.put(self.freqs[i] as u64, 16, Ghost(start));
                proof {
                    assert(self.bits() =~= before_run + head + (sent + piece));
                    assert((sent + piece) + freq_bits(freqs, i + 1, last as int) =~= sent
                        + freq_bits(freqs, i as int, last as int));
                    sent = sent + piece;
                }
                i += 1;
            }
            proof {
                assert(sent =~= freq_bits(freqs, first as int, last as int)) by {
                    assert(freq_bits(freqs, last + 1, last as int) =~= Seq::<bool>::empty());
                    assert(sent + Seq::<bool>::empty() =~= sent);
                }
                let run = head + sent;
                assert(run_bits(freqs, first as int) =~= run + run_bits(freqs, next as int));
                assert(self.bits() =~= bits0 + (done + run));
                assert(bits0 + ((done + run) + run_bits(freqs, next as int)) =~= bits0 + (done
                    + run_bits(freqs, first as int)));
                done = done + run;
            }
            first = next;
        }
        self.put(0, 8, Ghost(start));
        proof {
            assert(self.bits() =~= bits0 + (done + crate::bits::value_bits(0, 8)));
        }

        Ok(())
    }

    /// Code the bytes that wait as a block, the last of the stream where
    /// `final_block` is set.
    fn process_block(&mut self, final_block: bool, Ghost(start): Ghost<Seq<bool>>) -> (r: Result<
        (),
        Error,
    >)
        requires
            old(self).wf(),
            extends(old(self).bits(), start),
        ensures
            final(self).wf(),
            r matches Err(e) ==> e == Error::CodeTooLong,
            r is Ok ==> final(self).fill == 0,
            extends(final(self).bits(), start),
    {
        self.reset();
        self.count_freqs();
        let root = self.build_tree();

        match self.calc_codes(root) {
            Ok(()) => {},
            Err(e) => {
                return Err(e);
            },
        }

        let _ = self.write_freqs(Ghost(start));

        let mut i: usize = 0;
        while i < self.fill
            invariant
                i <= self.fill,
                self.wf(),
                forall|j: int| 0 <= j < SYMBOLS ==> (#[trigger] self.codes@[j]).1 < CODE_LEN_LIMIT,
                extends(self.bits(), start),
            decreases self.fill - i,
        {
            let c = self.block[i];
            let (code, code_len) = self.codes[c as usize];
            assert(self.codes@[c as int].1 < CODE_LEN_LIMIT);
            self.put(code, code_len, Ghost(start));
            i += 1;
        }
        let marker = if final_block {
            EOF
        } else {
            EOB
        };
        let (code, code_len) = self.codes[marker];
        assert(self.codes@[marker as int].1 < CODE_LEN_LIMIT);
        self.put(code, code_len, Ghost(start));
        self.fill = 0;
        Ok(())
    }

    /// Take in the bytes of `input`, coding a block whenever one is full,
    /// and return the number of bytes taken in.
    fn process(&mut self, input: &[u8]) -> (r: Result<usize, Error>)
        requires
            old(self).wf(),
        ensures
            final(self).wf(),
            r matches Ok(n) ==> n == input@.len(),
            r matches Err(e) ==> e == Error::CodeTooLong,
            extends(final(self).bits(), old(self).bits()),
    {
        let ghost start = self.bits();
        proof {
            lemma_extends_self(start);
        }
        let total: usize = input.len();
        let mut input_ptr: usize = 0;
        while input_ptr < input.len()
            invariant
                input_ptr <= input@.len(),
                total == input@.len(),
                start == old(self).bits(),
                self.wf(),
                extends(self.bits(), start),
            decreases input@.len() - input_ptr, if self.fill == BLOCK_SIZE { 1nat } else { 0nat },
        {
            let space = BLOCK_SIZE - self.fill;
            let cp = if space < input.len() - input_ptr {
                space
            } else {
                input.len() - input_ptr
            };
            let fill = self.fill;
            let mut i: usize = 0;
            while i < cp
                invariant
                    i <= cp,
                    total == input@.len(),
                    input_ptr + cp <= input@.len(),
                    fill + cp <= BLOCK_SIZE,
                    self.fill == fill,
                    self.wf(),
                    extends(self.bits(), start),
                decreases cp - i,
            {
                self.block.set(fill + i, input[input_ptr + i]);
                i += 1;
            }
            self.fill += cp;
            input_ptr += cp;
            if self.fill == BLOCK_SIZE {
                match self.process_block(false, Ghost(start)) {
                    Ok(()) => {},
                    Err(e) => {
                        return Err(e);
                    },
                }
            }
        }

        Ok(input_ptr)
    }

    /// Give up the compressor for the buffer it wrote to.  Bits of an
    /// unfinished byte that was not flushed are lost.
    pub fn to_inner(self) -> (inner: Vec<u8>)
        ensures
            inner@ == self.bytes(),
    {
        self.inner.to_inner()
    }

    /// Take in the bytes of `input`, coding a block whenever one is full,
    /// and return the number of bytes taken in.  Fails where the tree of a
    /// block cannot be coded.
    pub fn write(&mut self, input: &[u8]) -> (r: Result<usize, Error>)
        requires
            old(self).wf(),
        ensures
            final(self).wf(),
            r matches Ok(n) ==> n == input@.len(),
            r matches Err(e) ==> e == Error::CodeTooLong,
            extends(final(self).bits(), old(self).bits()),
    {
        self.process(input)
    }

    /// Code the bytes that wait as the last block, and send the unfinished
    /// byte to the buffer, its missing bits zero.  Fails where the tree of
    /// the block cannot be coded.
    pub fn flush(&mut self) -> (r: Result<(), Error>)
        requires
            old(self).wf(),
        ensures
            final(self).wf(),
            r matches Err(e) ==> e == Error::CodeTooLong,
            r is Ok ==> final(self).waiting() == Seq::<u8>::empty() && exists|coded: Seq<bool>|
                #[trigger] extends(coded, old(self).bits()) && final(self).bytes()
                    == crate::bits::pack_bits(coded),
    {
        proof {
            lemma_extends_self(self.bits());
        }
        match self.process_block(true, Ghost(self.bits())) {
            Ok(()) => {},
            Err(e) => {
                return Err(e);
            },
        }
        proof {
            assert(self.waiting() =~= Seq::<u8>::empty());
        }
        let ghost coded = self.bits();
        let _ = self.inner.flush();
        proof {
            assert(extends(coded, old(self).bits()));
        }
        Ok(())
    }
}

/// The number that the next `count` bits spell, and the input behind them;
/// `None` where the input ends before.
pub open spec fn number_at(src: BitSource, count: nat) -> Option<(usize, BitSource)> {
    if src.remaining() >= count {
        Some((crate::bits::bits_value(src.take(count)) as usize, src.skip(count)))
    } else {
        None
    }
}

/// The frequencies after those of the byte values from `i` to `last` were
/// read, sixteen bits each.
pub open spec fn range_read(freqs: Seq<usize>, src: BitSource, i: int, last: int) -> Option<
    (Seq<usize>, BitSource),
>
    decreases last + 1 - i,
{
    if i > last {
        Some((freqs, src))
    } else {
        match number_at(src, 16) {
            None => None,
            Some((v, rest)) => range_read(freqs.update(i, v), rest, i + 1, last),
        }
    }
}

/// The frequencies after the run from `first` to `last` and the runs
/// behind it were read, up to the zero byte that ends them.
pub open spec fn runs_read(freqs: Seq<usize>, src: BitSource, first: int, last: int) -> Option<
    (Seq<usize>, BitSource),
>
    decreases src.remaining(),
{
    match range_read(freqs, src, first, last) {
        None => None,
        Some((run, rest)) => match number_at(rest, 8) {
            None => None,
            Some((next, more)) => if next == 0 {
                Some((run, more))
            } else {
                match number_at(more, 8) {
                    None => None,
                    Some((end, then)) => if then.remaining() < src.remaining() {
                        runs_read(run, then, next as int, end as int)
                    } else {
                        None
                    },
                }
            },
        },
    }
}

/// The frequencies after the table at the start of a block was read into
/// them.
pub open spec fn freqs_read(freqs: Seq<usize>, src: BitSource) -> Option<(Seq<usize>, BitSource)> {
    match number_at(src, 8) {
        None => None,
        Some((first, rest)) => match number_at(rest, 8) {
            None => None,
            Some((last, more)) => match runs_read(freqs, more, first as int, last as int) {
                None => None,
                Some((read, then)) => Some(
                    (read.update(EOB as int, 1).update(EOF as int, 1), then),
                ),
            },
        },
    }
}

/// The symbol at which the way down from the node `n` ends, one bit for
/// each step, and the input behind the bits.
pub open spec fn leaf_at(tree: Seq<Node>, n: int, src: BitSource) -> Option<(usize, BitSource)>
    decreases n,
{
    if n <= EOF {
        Some((n as usize, src))
    } else {
        match number_at(src, 1) {
            None => None,
            Some((b, rest)) => if b == 0 {
                if tree[n].child0 < n {
                    leaf_at(tree, tree[n].child0 as int, rest)
                } else {
                    None
                }
            } else {
                if tree[n].child1 < n {
                    leaf_at(tree, tree[n].child1 as int, rest)
                } else {
                    None
                }
            },
        }
    }
}

/// What a decompressor has come to: the input that was not read, the
/// frequencies, the tree and its root, whether it is within a block, and
/// whether the end of the stream was found.
pub struct ReaderView {
    pub src: BitSource,
    pub freqs: Seq<usize>,
    pub tree: Seq<Node>,
    pub root: usize,
    pub in_block: bool,
    pub eof: bool,
}

/// A result with `done` put before the bytes of a success.
pub open spec fn behind(done: Seq<u8>, r: Result<Seq<u8>, Error>) -> Result<Seq<u8>, Error> {
    match r {
        Ok(s) => Ok(done + s),
        Err(e) => Err(e),
    }
}

/// The bytes of the blocks in the input, up to the end of the stream.  A
/// block starts with the table of its frequencies, for which the tree is
/// built; the codes of its bytes follow, up to the code of the end of the
/// block.
#[verifier::opaque]
pub open spec fn blocks(v: ReaderView) -> Result<Seq<u8>, Error>
    decreases v.src.remaining(),
            if v.in_block {
                0nat
            } else {
                1nat
            },
{
    if !v.in_block {
        match freqs_read(Seq::new(SYMBOLS as nat, |j: int| 0usize), v.src) {
            None => Err(Error::UnexpectedEof),
            Some((freqs, rest)) => if rest.remaining() < v.src.remaining() {
                blocks(
                    ReaderView {
                        src: rest,
                        freqs: freqs,
                        tree: tree_for(blank_tree(), freqs, true).0,
                        root: tree_for(blank_tree(), freqs, true).1 as usize,
                        in_block: true,
                        eof: v.eof,
                    },
                )
            } else {
                Err(Error::UnexpectedEof)
            },
        }
    } else {
        match leaf_at(v.tree, v.root as int, v.src) {
            None => Err(Error::UnexpectedEof),
            Some((sym, rest)) => if sym == EOF {
                Ok(Seq::empty())
            } else if rest.remaining() >= v.src.remaining() {
                Err(Error::UnexpectedEof)
            } else if sym == EOB {
                blocks(ReaderView { src: rest, in_block: false, ..v })
            } else {
                behind(seq![sym as u8], blocks(ReaderView { src: rest, ..v }))
            },
        }
    }
}

/// The bytes of the blocks, by what the start of the input gives.
pub proof fn lemma_blocks(v: ReaderView)
    ensures
        blocks(v) == if !v.in_block {
            match freqs_read(Seq::new(SYMBOLS as nat, |j: int| 0usize), v.src) {
                None => Err::<Seq<u8>, Error>(Error::UnexpectedEof),
                Some((freqs, rest)) => if rest.remaining() < v.src.remaining() {
                    blocks(
                        ReaderView {
                            src: rest,
                            freqs: freqs,
                            tree: tree_for(blank_tree(), freqs, true).0,
                            root: tree_for(blank_tree(), freqs, true).1 as usize,
                            in_block: true,
                            eof: v.eof,
                        },
                    )
                } else {
                    Err(Error::UnexpectedEof)
                },
            }
        } else {
            match leaf_at(v.tree, v.root as int, v.src) {
                None => Err(Error::UnexpectedEof),
                Some((sym, rest)) => if sym == EOF {
                    Ok(Seq::empty())
                } else if rest.remaining() >= v.src.remaining() {
                    Err(Error::UnexpectedEof)
                } else if sym == EOB {
                    blocks(ReaderView { src: rest, in_block: false, ..v })
                } else {
                    behind(seq![sym as u8], blocks(ReaderView { src: rest, ..v }))
                },
            }
        },
{
    reveal(blocks);
}

/// What decompressing `input` gives.
pub open spec fn decoded(input: Seq<u8>) -> Result<Seq<u8>, Error> {
    blocks(
        ReaderView {
            src: BitSource { bits: crate::bits::bytes_to_bits(input), extra: 0 },
            freqs: Seq::new(SYMBOLS as nat, |j: int| 0usize),
            tree: blank_tree(),
            root: 0,
            in_block: false,
            eof: false,
        },
    )
}

/// Read `count` bits, up to sixteen, as a number.
fn read_number(inner: &mut BitReader, count: usize) -> (r: Result<usize, Error>)
    requires
        old(inner).wf(),
        0 < count <= 16,
    ensures
        final(inner).wf(),
        match number_at(old(inner)@, count as nat) {
            Some((v, rest)) => r == Ok::<usize, Error>(v) && final(inner)@ == rest,
            None => r == Err::<usize, Error>(Error::UnexpectedEof),
        },
        r matches Ok(v) ==> v < 65536 && (count <= 8 ==> v < 256) && (count == 1 ==> v < 2)
            && final(inner)@.remaining() < old(inner)@.remaining(),
        r matches Err(e) ==> e == Error::UnexpectedEof,
{
    proof {
        let src = inner@;
        src.lemma_take_one_more(count as nat);
        crate::bits::lemma_bits_value_bound(src.take(count as nat));
        vstd::arithmetic::power2::lemma2_to64();
        if count < 16 {
            vstd::arithmetic::power2::lemma_pow2_strictly_increases(count as nat, 16);
        }
        if count < 8 {
            vstd::arithmetic::power2::lemma_pow2_strictly_increases(count as nat, 8);
        }
    }
    match inner.read_bits(count) {
        Ok(v) => Ok(v as usize),
        Err(e) => Err(e),
    }
}

/// A Huffman decompressor.
pub struct DecompressReader<'a> {
    inner: BitReader<'a>,
    freqs: Vec<usize>,
    tree: Vec<Node>,
    root: usize,
    in_block: bool,
    eof: bool,
}

impl<'a> View for DecompressReader<'a> {
    type V = ReaderView;

    closed spec fn view(&self) -> ReaderView {
        ReaderView {
            src: self.inner@,
            freqs: self.freqs@,
            tree: self.tree@,
            root: self.root,
            in_block: self.in_block,
            eof: self.eof,
        }
    }
}

impl<'a> DecompressReader<'a> {
    /// The number of bits of the input that were not read.
    pub open spec fn remaining(&self) -> nat {
        self@.src.remaining()
    }

    /// Whether the end of the stream was found.
    pub open spec fn at_eof(&self) -> bool {
        self@.eof
    }

    /// The decompressor is in order.
    pub closed spec fn wf(&self) -> bool {
        &&& self.inner.wf()
        &&& self.freqs@.len() == SYMBOLS
        &&& children_below(self.tree@)
        &&& self.root < NODES
        &&& self.in_block ==> EOF <= self.root
    }

    /// Create a new decompressor for the data in `inner`.
    pub fn new(inner: &'a [u8]) -> (r: DecompressReader<'a>)
        ensures
            r.wf(),
            r@ == (ReaderView {
                src: BitSource { bits: crate::bits::bytes_to_bits(inner@), extra: 0 },
                freqs: Seq::new(SYMBOLS as nat, |j: int| 0usize),
                tree: blank_tree(),
                root: 0,
                in_block: false,
                eof: false,
            }),
            !r.at_eof(),
            r.remaining() == 8 * inner@.len(),
    {
        DecompressReader {
            inner: BitReader::new(inner),
            freqs: zeros(SYMBOLS),
            tree: empty_tree(),
            root: 0,
            in_block: false,
            eof: false,
        }
    }

    /// Clear the frequencies and the tree.
    fn reset(&mut self)
        requires
            old(self).wf(),
        ensures
            final(self).wf(),
            final(self).freqs@ == Seq::new(SYMBOLS as nat, |j: int| 0usize),
            final(self).tree@ == blank_tree(),
            final(self).root == old(self).root,
            final(self).inner == old(self).inner,
            final(self).eof == old(self).eof,
            final(self).in_block == old(self).in_block,
    {
        let mut i: usize = 0;
        while i < SYMBOLS
            invariant
                i <= SYMBOLS,
                self.wf(),
                self.root == old(self).root,
                self.inner == old(self).inner,
                self.eof == old(self).eof,
                self.in_block == old(self).in_block,
                forall|j: int| 0 <= j < i ==> self.freqs@[j] == 0,
            decreases SYMBOLS - i,
        {
            self.freqs.set(i, 0);
            i += 1;
        }
        proof {
            assert(self.freqs@ =~= Seq::new(SYMBOLS as nat, |j: int| 0usize));
        }
        reset_tree(&mut self.tree);
    }

    /// Build the tree for the frequencies of the block and return its root.
    fn build_tree(&mut self) -> (root: usize)
        requires
            old(self).wf(),
        ensures
            final(self).wf(),
            final(self).tree@ == tree_for(old(self).tree@, old(self).freqs@, true).0,
            root == tree_for(old(self).tree@, old(self).freqs@, true).1,
            final(self).freqs == old(self).freqs,
            final(self).root == old(self).root,
            final(self).inner == old(self).inner,
            final(self).eof == old(self).eof,
            final(self).in_block == old(self).in_block,
            EOF <= root < LAST_NODE,
    {
        build(&self.freqs, &mut self.tree, true)
    }

    /// Read the code of a symbol: go down from the root, by one bit for each
    /// step, to a leaf.
    fn decode(&mut self, root: usize) -> (r: Result<Symbol, Error>)
        requires
            old(self).wf(),
            EOF <= root < NODES,
        ensures
            final(self).wf(),
            match leaf_at(old(self).tree@, root as int, old(self).inner@) {
                Some((sym, rest)) => r == Ok::<Symbol, Error>(sym as Symbol) && sym <= EOF
                    && final(self).inner@ == rest,
                None => r == Err::<Symbol, Error>(Error::UnexpectedEof),
            },
            final(self).freqs == old(self).freqs,
            final(self).tree == old(self).tree,
            final(self).eof == old(self).eof,
            final(self).in_block == old(self).in_block,
            final(self).root == old(self).root,
            r matches Ok(sym) ==> sym <= EOF && (sym == EOF || final(self).remaining() < old(self).remaining()),
            r matches Err(e) ==> e == Error::UnexpectedEof,
    {
        let ghost goal = leaf_at(self.tree@, root as int, self.inner@);
        let mut n: usize = root;
        while n > EOF
            invariant
                n < NODES,
                self.wf(),
                goal == leaf_at(old(self).tree@, root as int, old(self).inner@),
                goal == leaf_at(self.tree@, n as int, self.inner@),
                self.freqs == old(self).freqs,
                self.tree == old(self).tree,
                self.eof == old(self).eof,
                self.in_block == old(self).in_block,
                self.root == old(self).root,
                self.remaining() <= old(self).remaining(),
                n != root ==> self.remaining() < old(self).remaining(),
            decreases n,
        {
            let b = match read_number(&mut self.inner, 1) {
                Ok(b) => b,
                Err(e) => {
                    return Err(e);
                },
            };
            let node = self.tree[n];
            assert(self.tree@[n as int].child0 < n && self.tree@[n as int].child1 < n);
            if b == 0 {
                n = node.child0;
            } else {
                n = node.child1;
            }
        }
        Ok(n as Symbol)
    }

    /// Read the frequencies of the byte values of a block.
    fn read_freqs(&mut self) -> (r: Result<(), Error>)
        requires
            old(self).wf(),
        ensures
            final(self).wf(),
            match freqs_read(old(self).freqs@, old(self).inner@) {
                Some((freqs, rest)) => r is Ok && final(self).freqs@ == freqs && final(self).inner@
                    == rest,
                None => r == Err::<(), Error>(Error::UnexpectedEof),
            },
            final(self).tree == old(self).tree,
            final(self).root == old(self).root,
            final(self).eof == old(self).eof,
            final(self).in_block == old(self).in_block,
            r is Ok ==> final(self).remaining() < old(self).remaining(),
            r matches Err(e) ==> e == Error::UnexpectedEof,
    {
        let ghost goal = freqs_read(self.freqs@, self.inner@);
        let mut first = match read_number(&mut self.inner, 8) {
            Ok(v) => v,
            Err(e) => {
                return Err(e);
            },
        };
        let mut last = match read_number(&mut self.inner, 8) {
            Ok(v) => v,
            Err(e) => {
                return Err(e);
            },
        };
        let ghost runs = runs_read(self.freqs@, self.inner@, first as int, last as int);
        loop
            invariant_except_break
                runs == runs_read(self.freqs@, self.inner@, first as int, last as int),
            invariant
                first < 256,
                last < 256,
                self.wf(),
                goal == freqs_read(old(self).freqs@, old(self).inner@),
                goal == match runs {
                    None => None::<(Seq<usize>, BitSource)>,
                    Some((read, then)) => Some(
                        (read.update(EOB as int, 1).update(EOF as int, 1), then),
                    ),
                },
                self.tree == old(self).tree,
                self.root == old(self).root,
                self.eof == old(self).eof,
                self.in_block == old(self).in_block,
                self.remaining() < old(self).remaining(),
            ensures
                runs == Some((self.freqs@, self.inner@)),
            decreases self.remaining(),
        {
            let ghost left = self.remaining();
            let ghost range = range_read(self.freqs@, self.inner@, first as int, last as int);
            let mut i: usize = first;
            while i < last + 1
                invariant
                    i <= 256,
                    last < 256,
                    self.wf(),
                    range == range_read(self.freqs@, self.inner@, i as int, last as int),
                    goal == freqs_read(old(self).freqs@, old(self).inner@),
                    range is None ==> goal is None,
                    self.tree == old(self).tree,
                    self.root == old(self).root,
                    self.eof == old(self).eof,
                    self.in_block == old(self).in_block,
                    self.remaining() < old(self).remaining(),
                    self.remaining() <= left,
                decreases last + 1 - i,
            {
                let freq = match read_number(&mut self.inner, 16) {
                    Ok(v) => v,
                    Err(e) => {
                        return Err(e);
                    },
                };
                self.freqs.set(i, freq);
                i += 1;
            }
            first = match read_number(&mut self.inner, 8) {
                Ok(v) => v,
                Err(e) => {
                    return Err(e);
                },
            };
            if first == 0 {
                break ;
            }
            last = match read_number(&mut self.inner, 8) {
                Ok(v) => v,
                Err(e) => {
                    return Err(e);
                },
            };
        }
        self.freqs.set(EOB, 1);
        self.freqs.set(EOF, 1);
        Ok(())
    }

    /// Decompress all blocks up to the end of the stream and append their
    /// bytes to `output`.  Returns the number of bytes appended.  Fails
    /// where the input ends before the end of the stream.
    pub fn read_to_end(&mut self, output: &mut Vec<u8>) -> (r: Result<usize, Error>)
        requires
            old(self).wf(),
        ensures
            final(self).wf(),
            !old(self).at_eof() ==> match blocks(old(self)@) {
                Ok(s) => r == Ok::<usize, Error>(s.len() as usize) && final(output)@ == old(output)@ + s,
                Err(e) => r == Err::<usize, Error>(e),
            },
            old(self).at_eof() ==> r == Ok::<usize, Error>(0) && final(output)@ == old(output)@,
            r matches Ok(n) ==> final(self).at_eof() && final(output)@.len() == old(output)@.len()
                + n && final(output)@.take(old(output)@.len() as int) == old(output)@,
            r matches Err(e) ==> e == Error::UnexpectedEof,
    {
        let begin: usize = output.len();
        if self.eof {
            proof {
                assert(output@.take(output@.len() as int) =~= output@);
            }
            return Ok(0);
        }
        let ghost goal = blocks(self@);
        let ghost mut done: Seq<u8> = Seq::empty();
        proof {
            assert(output@.take(output@.len() as int) =~= output@);
            assert(output@ + done =~= output@);
            assert(behind(done, goal) == goal) by {
                if goal is Ok {
                    assert(done + goal->Ok_0 =~= goal->Ok_0);
                }
            }
        }
        loop
            invariant
                self.wf(),
                !self.eof,
                !old(self).at_eof(),
                begin == old(output)@.len(),
                output@.len() >= begin,
                output@.take(begin as int) == old(output)@,
                output@ == old(output)@ + done,
                goal == blocks(old(self)@),
                goal == behind(done, blocks(self@)),
            decreases self.remaining(), if self.in_block { 0nat } else { 1nat },
        {
            let ghost here = self@;
            proof {
                lemma_blocks(here);
            }
            if !self.in_block {
                self.reset();
                match self.read_freqs() {
                    Ok(()) => {},
                    Err(e) => {
                        return Err(e);
                    },
                }
                let root = self.build_tree();
                self.root = root;
                self.in_block = true;
            } else {
                let root = self.root;
                let b = match self.decode(root) {
                    Ok(b) => b,
                    Err(e) => {
                        return Err(e);
                    },
                };
                if b as usize == EOF {
                    self.eof = true;
                    proof {
                        assert(done + Seq::<u8>::empty() =~= done);
                        assert(output@.len() == begin + done.len());
                    }
                    return Ok(output.len() - begin);
                } else if b as usize == EOB {
                    self.in_block = false;
                } else {
                    let ghost before = output@;
                    output.push(b as u8);
                    proof {
                        assert(output@.take(begin as int) =~= before.take(begin as int));
                        let next = blocks(self@);
                        assert(output@ =~= old(output)@ + (done + seq![b as u8]));
                        assert(goal == behind(done + seq![b as u8], next)) by {
                            if next is Ok {
                                assert(done + (seq![b as u8] + next->Ok_0) =~= (done
                                    + seq![b as u8]) + next->Ok_0);
                            }
                        }
                        done = done + seq![b as u8];
                    }
                }
            }
        }
    }
}

/// Compress `input` and append the compressed data to `output`.  Fails
/// where the tree of a block cannot be coded.
pub fn compress(input: &[u8], output: Vec<u8>) -> (r: Result<Vec<u8>, Error>)
    ensures
        r matches Ok(out) ==> exists|coded: Seq<bool>| #[trigger]
            extends(coded, crate::bits::bytes_to_bits(output@)) && out@ == crate::bits::pack_bits(
                coded,
            ),
        r matches Err(e) ==> e == Error::CodeTooLong,
{
    let mut cw = CompressWriter::new(output);
    let ghost start = cw.bits();
    match cw.write(input) {
        Ok(_) => {},
        Err(e) => {
            return Err(e);
        },
    }
    let ghost mid = cw.bits();
    match cw.flush() {
        Ok(()) => {},
        Err(e) => {
            return Err(e);
        },
    }
    proof {
        let coded = choose|coded: Seq<bool>| #[trigger]
            extends(coded, mid) && cw.bytes() == crate::bits::pack_bits(coded);
        lemma_extends_trans(coded, mid, start);
    }
    Ok(cw.to_inner())
}

/// Decompress the data in `input` and append the decompressed bytes to
/// `output`.  Fails where the input ends before the end of the stream.
pub fn decompress(input: &[u8], output: Vec<u8>) -> (r: Result<Vec<u8>, Error>)
    ensures
        match decoded(input@) {
            Ok(s) => r matches Ok(out) && out@ == output@ + s,
            Err(e) => r matches Err(x) && x == e,
        },
        r matches Ok(out) ==> out@.len() >= output@.len() && out@.take(output@.len() as int)
            == output@,
        r matches Err(e) ==> e == Error::UnexpectedEof,
{
    let mut out = output;
    let mut cr = DecompressReader::new(input);
    match cr.read_to_end(&mut out) {
        Ok(_) => Ok(out),
        Err(e) => Err(e),
    }
}

} // verus!
