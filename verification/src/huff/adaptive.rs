//! A simple adaptive Huffman coder.
//!
//! Compressor and decompressor keep the same tree and change it in step
//! after every symbol.  A symbol that the tree does not hold yet is coded
//! as an escape followed by its eight bits.  The nodes of the tree stand in
//! a table in the order of their weights, the root first; the two children
//! of a node stand side by side behind it.
//!
//! Based on Mark Nelson, Jean-Loup Gailly: The Data Compression Book, 2nd
//! Edition, M&T Books, 1996.
//!
//! The steps that change the tree check what they rely on and fail with
//! `Error::CodeTooLong` where it does not hold, so that they go through for
//! any tree in the table.

use vstd::prelude::*;
use crate::bitfile::{BitReader, BitSource, BitWriter};
use crate::error::Error;
use crate::bits::{extends, lemma_extends_more, lemma_extends_self, lemma_extends_trans};

verus! {

pub type Symbol = usize;

/// The symbol that ends a stream.
pub const EOF: usize = 256;

/// The symbol that goes before a byte that the tree does not hold.
pub const ESCAPE: usize = 257;

/// The number of symbols.
pub const SYMBOL_COUNT: usize = 258;

/// The number of nodes of the table.
pub const NODE_TABLE_COUNT: usize = 515;

/// The index of the root.
pub const ROOT_NODE: usize = 0;

/// The weight of the root at which the weights are halved.
pub const MAX_WEIGHT: usize = 0x8000;

/// The length that no code exceeds.
pub const MAX_CODE_SIZE: usize = 64;

/// A node of the tree: its weight, its parent, and its child, which is a
/// symbol where the node is a leaf and else the first of the two nodes
/// below it.
#[derive(Copy, Clone)]
pub struct Node {
    pub weight: usize,
    pub parent: Option<usize>,
    pub child_is_leaf: bool,
    pub child: usize,
}

impl Node {
    /// A node that stands for nothing.
    pub fn new() -> (n: Node)
        ensures
            n == blank(),
            n.weight == 0,
            n.parent is None,
            !n.child_is_leaf,
            n.child == 0,
    {
        Node { weight: 0, parent: None, child_is_leaf: false, child: 0 }
    }
}

/// The tree: for every symbol its leaf, where it has one, the number of
/// nodes in use, and the table of the nodes.
pub struct Tree {
    pub leaf: Vec<Option<usize>>,
    pub next_free_node: usize,
    pub nodes: Vec<Node>,
}

/// The tables hold a tree: the root is an inner node without a parent,
/// every other node in use stands behind its parent, the children of an
/// inner node are in use and stand behind it, and the leaves of the symbols
/// are in use.
pub open spec fn tree_ok(leaf: Seq<Option<usize>>, next: usize, nodes: Seq<Node>) -> bool {
    &&& leaf.len() == SYMBOL_COUNT
    &&& nodes.len() == NODE_TABLE_COUNT
    &&& 3 <= next <= NODE_TABLE_COUNT
    &&& !nodes[0].child_is_leaf
    &&& nodes[0].parent is None
    &&& forall|k: int|
        0 <= k < next ==> if (#[trigger] nodes[k]).child_is_leaf {
            nodes[k].child < SYMBOL_COUNT
        } else {
            k < nodes[k].child && nodes[k].child + 1 < next
        }
    &&& forall|k: int|
        1 <= k < next ==> ((#[trigger] nodes[k]).parent matches Some(p) && p < k)
    &&& forall|s: int| 0 <= s < SYMBOL_COUNT ==> (#[trigger] leaf[s] matches Some(i) ==> i < next)
}

/// The tables of a tree as values.
pub struct Shape {
    pub leaf: Seq<Option<usize>>,
    pub next: usize,
    pub nodes: Seq<Node>,
}

/// A node that stands for nothing.
pub open spec fn blank() -> Node {
    Node { weight: 0, parent: None, child_is_leaf: false, child: 0 }
}

/// The tree of a stream that starts: the root with the leaves of the end of
/// the stream and of the escape.
pub open spec fn first_shape() -> Shape {
    Shape {
        leaf: Seq::new(SYMBOL_COUNT as nat, |s: int| None::<usize>).update(
            EOF as int,
            Some((ROOT_NODE + 1) as usize),
        ).update(ESCAPE as int, Some((ROOT_NODE + 2) as usize)),
        next: 3,
        nodes: Seq::new(NODE_TABLE_COUNT as nat, |k: int| blank()).update(
            ROOT_NODE as int,
            Node { weight: 2, parent: None, child_is_leaf: false, child: (ROOT_NODE + 1) as usize },
        ).update(
            ROOT_NODE + 1,
            Node { weight: 1, parent: Some(ROOT_NODE), child_is_leaf: true, child: EOF },
        ).update(
            ROOT_NODE + 2,
            Node { weight: 1, parent: Some(ROOT_NODE), child_is_leaf: true, child: ESCAPE },
        ),
    }
}

/// A symbol can get a leaf: two places are free in the table, and the last
/// node, the lightest, is a leaf.
pub open spec fn can_add(t: Shape) -> bool {
    t.next + 2 <= NODE_TABLE_COUNT && t.nodes[t.next - 1].child_is_leaf
}

/// The tree after `sym` got a leaf of weight zero: the lightest node
/// becomes an inner node above its old self and the new leaf.
pub open spec fn added(t: Shape, sym: usize) -> Shape {
    let lightest = (t.next - 1) as usize;
    let old_leaf = t.nodes[lightest as int];
    Shape {
        leaf: t.leaf.update(old_leaf.child as int, Some(t.next)).update(
            sym as int,
            Some((t.next + 1) as usize),
        ),
        next: (t.next + 2) as usize,
        nodes: t.nodes.update(
            t.next as int,
            Node {
                weight: old_leaf.weight,
                parent: Some(lightest),
                child_is_leaf: true,
                child: old_leaf.child,
            },
        ).update(
            lightest as int,
            Node {
                weight: old_leaf.weight,
                parent: old_leaf.parent,
                child_is_leaf: false,
                child: t.next,
            },
        ).update(
            t.next + 1,
            Node { weight: 0, parent: Some(lightest), child_is_leaf: true, child: sym },
        ),
    }
}

/// The tables after what hangs below `node` was told that `node` now
/// stands at `place`: the symbol of a leaf finds it there, and the two
/// children of an inner node have it as their parent.
pub open spec fn told(t: Shape, node: Node, place: usize) -> Shape {
    if node.child_is_leaf {
        Shape { leaf: t.leaf.update(node.child as int, Some(place)), ..t }
    } else {
        let first = Node { parent: Some(place), ..t.nodes[node.child as int] };
        let once = t.nodes.update(node.child as int, first);
        let second = Node { parent: Some(place), ..once[node.child + 1] };
        Shape { nodes: once.update(node.child + 1, second), ..t }
    }
}

/// The nodes at `i` and at `j`, which stands before `i`, can change
/// places: the node at `j` has no child at or before `i`.
pub open spec fn can_swap(t: Shape, i: int, j: int) -> bool {
    t.nodes[j].child_is_leaf || t.nodes[j].child > i
}

/// The tree after the nodes at `i` and at `j` changed places.  Their
/// parents stay with the places.
pub open spec fn swapped(t: Shape, i: int, j: int) -> Shape {
    let node_i = t.nodes[i];
    let node_j = t.nodes[j];
    let both = told(told(t, node_i, j as usize), node_j, i as usize);
    Shape {
        nodes: both.nodes.update(
            i,
            Node {
                weight: node_j.weight,
                parent: node_i.parent,
                child_is_leaf: node_j.child_is_leaf,
                child: node_j.child,
            },
        ).update(
            j,
            Node {
                weight: node_i.weight,
                parent: node_j.parent,
                child_is_leaf: node_i.child_is_leaf,
                child: node_i.child,
            },
        ),
        ..both
    }
}

/// The node `node` with the weight `weight`.
pub open spec fn weighing(node: Node, weight: usize) -> Node {
    Node { weight: weight, ..node }
}

/// The table after the leaves among the nodes from `i` down to the root
/// were moved to the end of the table, the next of them to `j`, with their
/// weights halved, rounding up; and the place before the last leaf that was
/// moved.  `None` where a weight cannot be halved or the places give out.
pub open spec fn leaves_moved(nodes: Seq<Node>, i: int, j: int) -> Option<(Seq<Node>, int)>
    decreases i,
{
    if nodes[i].child_is_leaf {
        if nodes[i].weight == usize::MAX || j == 0 {
            None
        } else {
            let moved = nodes.update(j, weighing(nodes[i], ((nodes[i].weight + 1) / 2) as usize));
            if i <= 0 {
                Some((moved, j - 1))
            } else {
                leaves_moved(moved, i - 1, j - 1)
            }
        }
    } else {
        if i <= 0 {
            Some((nodes, j))
        } else {
            leaves_moved(nodes, i - 1, j)
        }
    }
}

/// The first place from `k` on, before `next`, whose node is not heavier
/// than `weight`.
pub open spec fn place_for(nodes: Seq<Node>, weight: int, k: int, next: int) -> int
    decreases next - k,
{
    if k < next && weight < nodes[k].weight {
        place_for(nodes, weight, k + 1, next)
    } else {
        k
    }
}

/// The table after the nodes behind `j` up to `k` moved one place down.
pub open spec fn moved_down(nodes: Seq<Node>, j: int, k: int) -> Seq<Node> {
    Seq::new(
        nodes.len(),
        |p: int|
            if j <= p < k {
                nodes[p + 1]
            } else {
                nodes[p]
            },
    )
}

/// The table after the inner nodes were built from the end of the table:
/// the next of them, above the nodes at `i` and behind it, gets the place
/// `j` or the place behind `j` at which it stands in the order of the
/// weights.  `None` where a weight does not fit or the nodes give out.
pub open spec fn inner_built(nodes: Seq<Node>, i: int, j: int, next: int) -> Option<Seq<Node>>
    decreases j,
{
    if nodes[i].weight > usize::MAX - nodes[i + 1].weight {
        None
    } else {
        let weight = nodes[i].weight + nodes[i + 1].weight;
        let k = place_for(nodes, weight, j + 1, next) - 1;
        let down = moved_down(nodes, j, k);
        let put = down.update(
            k,
            Node { weight: weight as usize, child: i as usize, child_is_leaf: false, ..down[k] },
        );
        if j <= 0 {
            Some(put)
        } else if i < 2 {
            None
        } else {
            inner_built(put, i - 2, j - 1, next)
        }
    }
}

/// The tables after the nodes from `i` down to the root told what hangs
/// below them where they stand.  `None` where a node has a child that is
/// not in the tables.
pub open spec fn all_told(t: Shape, i: int) -> Option<Shape>
    decreases i,
{
    if t.nodes[i].child_is_leaf && t.nodes[i].child >= SYMBOL_COUNT {
        None
    } else if !t.nodes[i].child_is_leaf && t.nodes[i].child >= NODE_TABLE_COUNT - 1 {
        None
    } else if i <= 0 {
        Some(told(t, t.nodes[i], i as usize))
    } else {
        all_told(told(t, t.nodes[i], i as usize), i - 1)
    }
}

/// The tables after the weights of the leaves were halved and the inner
/// nodes built anew, whether or not they hold a tree then.
pub open spec fn rebuilt(t: Shape, next: int) -> Option<Shape> {
    match leaves_moved(t.nodes, next - 1, next - 1) {
        None => None,
        Some((leaves, j)) => match inner_built(leaves, next - 2, j, next) {
            None => None,
            Some(nodes) => all_told(Shape { nodes: nodes, ..t }, next - 1),
        },
    }
}

/// The tree after the weights were halved; `None` where the steps do not
/// go through or do not end with a tree.
pub open spec fn halved(t: Shape) -> Option<Shape> {
    match rebuilt(t, t.next as int) {
        None => None,
        Some(h) => if tree_ok(h.leaf, h.next, h.nodes) {
            Some(h)
        } else {
            None
        },
    }
}

/// The first place from `n` down before which no lighter node than the one
/// at `c` stands.
pub open spec fn first_lighter(nodes: Seq<Node>, c: int, n: int) -> int
    decreases n,
{
    if n > 0 && nodes[n - 1].weight < nodes[c].weight {
        first_lighter(nodes, c, n - 1)
    } else {
        n
    }
}

/// The tree after the weights of the node `current` and of the nodes above
/// it grew by one, each node that became heavier than nodes before it
/// changing places with the first of them.  `None` where a weight does not
/// fit, or a node would change places with the root or with a node above
/// it.
pub open spec fn raised(t: Shape, current: Option<usize>) -> Option<Shape>
    decreases
            match current {
                Some(c) => c + 1,
                None => 0,
            },
{
    match current {
        None => Some(t),
        Some(c) => if t.nodes[c as int].weight == usize::MAX {
            None
        } else {
            let heavier = Shape {
                nodes: t.nodes.update(
                    c as int,
                    weighing(t.nodes[c as int], (t.nodes[c as int].weight + 1) as usize),
                ),
                ..t
            };
            let n = first_lighter(heavier.nodes, c as int, c as int);
            if n != c && (n == 0 || !can_swap(heavier, c as int, n)) {
                None
            } else {
                let placed = if n != c {
                    swapped(heavier, c as int, n)
                } else {
                    heavier
                };
                match placed.nodes[n].parent {
                    Some(p) => if p < c {
                        raised(placed, Some(p))
                    } else {
                        Some(placed)
                    },
                    None => Some(placed),
                }
            }
        },
    }
}

/// The tree after one more occurrence of `sym` was counted, the weights
/// halved before where the root has reached the limit.
pub open spec fn updated(t: Shape, sym: usize) -> Option<Shape> {
    if t.nodes[ROOT_NODE as int].weight == MAX_WEIGHT {
        match halved(t) {
            None => None,
            Some(h) => raised(h, h.leaf[sym as int]),
        }
    } else {
        raised(t, t.leaf[sym as int])
    }
}

impl Tree {
    /// The tables of the tree as values.
    pub open spec fn shape(&self) -> Shape {
        Shape { leaf: self.leaf@, next: self.next_free_node, nodes: self.nodes@ }
    }

    /// The tables hold a tree.
    pub open spec fn wf(&self) -> bool {
        tree_ok(self.leaf@, self.next_free_node, self.nodes@)
    }

    /// The tree of a stream that starts: the root with the leaves of the
    /// end of the stream and of the escape.
    pub fn new() -> (tree: Tree)
        ensures
            tree.wf(),
            tree.next_free_node == 3,
            tree.shape() == first_shape(),
    {
        let mut leaf: Vec<Option<usize>> = Vec::new();
        let mut i: usize = 0;
        while i < SYMBOL_COUNT
            invariant
                i <= SYMBOL_COUNT,
                leaf@.len() == i,
                forall|s: int| 0 <= s < i ==> #[trigger] leaf@[s] is None,
            decreases SYMBOL_COUNT - i,
        {
            leaf.push(None);
            i += 1;
        }
        let mut nodes: Vec<Node> = Vec::new();
        let mut i: usize = 0;
        while i < NODE_TABLE_COUNT
            invariant
                i <= NODE_TABLE_COUNT,
                nodes@.len() == i,
                forall|k: int| 0 <= k < i ==> nodes@[k] == blank(),
            decreases NODE_TABLE_COUNT - i,
        {
            nodes.push(Node::new());
            i += 1;
        }
        nodes.set(
            ROOT_NODE,
            Node { weight: 2, parent: None, child_is_leaf: false, child: ROOT_NODE + 1 },
        );
        nodes.set(
            ROOT_NODE + 1,
            Node { weight: 1, parent: Some(ROOT_NODE), child_is_leaf: true, child: EOF },
        );
        leaf.set(EOF, Some(ROOT_NODE + 1));
        nodes.set(
            ROOT_NODE + 2,
            Node { weight: 1, parent: Some(ROOT_NODE), child_is_leaf: true, child: ESCAPE },
        );
        leaf.set(ESCAPE, Some(ROOT_NODE + 2));
        proof {
            assert(leaf@ =~= first_shape().leaf);
            assert(nodes@ =~= first_shape().nodes);
        }
        Tree { leaf: leaf, next_free_node: ROOT_NODE + 3, nodes: nodes }
    }

    /// Check that the tables hold a tree.
    fn validate(&self) -> (ok: bool)
        ensures
            ok == self.wf(),
    {
        if self.leaf.len() != SYMBOL_COUNT || self.nodes.len() != NODE_TABLE_COUNT {
            return false;
        }
        let next = self.next_free_node;
        if next < 3 || next > NODE_TABLE_COUNT {
            return false;
        }
        if self.nodes[0].child_is_leaf || self.nodes[0].parent.is_some() {
            return false;
        }
        let mut k: usize = 0;
        while k < next
            invariant
                k <= next <= NODE_TABLE_COUNT,
                next == self.next_free_node,
                self.nodes@.len() == NODE_TABLE_COUNT,
                forall|j: int|
                    0 <= j < k ==> if (#[trigger] self.nodes@[j]).child_is_leaf {
                        self.nodes@[j].child < SYMBOL_COUNT
                    } else {
                        j < self.nodes@[j].child && self.nodes@[j].child + 1 < next
                    },
                forall|j: int|
                    1 <= j < k ==> ((#[trigger] self.nodes@[j]).parent matches Some(p) && p < j),
            decreases next - k,
        {
            let n = self.nodes[k];
            if n.child_is_leaf {
                if n.child >= SYMBOL_COUNT {
                    return false;
                }
            } else {
                if n.child <= k || n.child >= next - 1 {
                    return false;
                }
            }
            if k >= 1 {
                match n.parent {
                    Some(p) => {
                        if p >= k {
                            return false;
                        }
                    },
                    None => {
                        return false;
                    },
                }
            }
            k += 1;
        }
        let mut s: usize = 0;
        while s < SYMBOL_COUNT
            invariant
                s <= SYMBOL_COUNT,
                self.leaf@.len() == SYMBOL_COUNT,
                next == self.next_free_node,
                forall|t: int|
                    0 <= t < s ==> (#[trigger] self.leaf@[t] matches Some(i) ==> i < next),
            decreases SYMBOL_COUNT - s,
        {
            match self.leaf[s] {
                Some(i) => {
                    if i >= next {
                        return false;
                    }
                },
                None => {},
            }
            s += 1;
        }
        true
    }

    /// Give `sym` a leaf of weight zero: the lightest node, which is the
    /// last, becomes an inner node above its old self and the new leaf.
    /// Fails where the table is full or the last node is no leaf.
    pub fn add_new_node(&mut self, sym: Symbol) -> (r: Result<(), Error>)
        requires
            old(self).wf(),
            sym < SYMBOL_COUNT,
        ensures
            final(self).wf(),
            can_add(old(self).shape()) ==> r is Ok && final(self).shape() == added(
                old(self).shape(),
                sym,
            ),
            !can_add(old(self).shape()) ==> r == Err::<(), Error>(Error::CodeTooLong) && final(self).shape() == old(self).shape(),
            r matches Err(e) ==> e == Error::CodeTooLong,
    {
        if self.next_free_node + 2 > NODE_TABLE_COUNT {
            return Err(Error::CodeTooLong);
        }
        let lightest_node = self.next_free_node - 1;
        let new_node = self.next_free_node;
        let zero_weight_node = self.next_free_node + 1;
        let lightest = self.nodes[lightest_node];
        if !lightest.child_is_leaf {
            return Err(Error::CodeTooLong);
        }
        assert(self.nodes@[lightest_node as int].child < SYMBOL_COUNT);
        assert(self.nodes@[lightest_node as int].parent matches Some(p) && p < lightest_node);
        let ghost before = *self;
        self.next_free_node += 2;

        self.nodes.set(
            new_node,
            Node {
                weight: lightest.weight,
                parent: Some(lightest_node),
                child_is_leaf: true,
                child: lightest.child,
            },
        );
        self.leaf.set(lightest.child, Some(new_node));

        self.nodes.set(
            lightest_node,
            Node {
                weight: lightest.weight,
                parent: lightest.parent,
                child_is_leaf: false,
                child: new_node,
            },
        );

        self.nodes.set(
            zero_weight_node,
            Node { weight: 0, parent: Some(lightest_node), child_is_leaf: true, child: sym },
        );
        self.leaf.set(sym, Some(zero_weight_node));
        proof {
            let next = self.next_free_node;
            assert forall|k: int| 0 <= k < next implies if (#[trigger] self.nodes@[k]).child_is_leaf {
                self.nodes@[k].child < SYMBOL_COUNT
            } else {
                k < self.nodes@[k].child && self.nodes@[k].child + 1 < next
            } by {
                if k < before.next_free_node && k != lightest_node {
                    assert(self.nodes@[k] == before.nodes@[k]);
                }
            }
            assert forall|k: int| 1 <= k < next implies ((#[trigger] self.nodes@[k]).parent matches Some(
                p,
            ) && p < k) by {
                if k < before.next_free_node && k != lightest_node {
                    assert(self.nodes@[k] == before.nodes@[k]);
                }
            }
            assert forall|s: int| 0 <= s < SYMBOL_COUNT implies (#[trigger] self.leaf@[s] matches Some(
                i,
            ) ==> i < next) by {
                if s != sym && s != lightest.child {
                    assert(self.leaf@[s] == before.leaf@[s]);
                }
            }
            assert(self.shape().leaf =~= added(before.shape(), sym).leaf);
            assert(self.shape().nodes =~= added(before.shape(), sym).nodes);
        }
        Ok(())
    }

    /// Count one more occurrence of `sym`: the weights of its leaf and of
    /// the nodes above it grow by one, and a node that has become heavier
    /// than nodes before it changes places with the first of them.  The
    /// weights are halved before where the root has reached the limit.
    /// Fails where a step finds the tree in a shape that it cannot go on
    /// from.
    pub fn update_model(&mut self, sym: Symbol) -> (r: Result<(), Error>)
        requires
            old(self).wf(),
            sym < SYMBOL_COUNT,
        ensures
            final(self).wf(),
            match updated(old(self).shape(), sym) {
                Some(t) => r is Ok && final(self).shape() == t,
                None => r == Err::<(), Error>(Error::CodeTooLong),
            },
            r matches Err(e) ==> e == Error::CodeTooLong,
    {
        let ghost goal = updated(self.shape(), sym);
        if self.nodes[ROOT_NODE].weight == MAX_WEIGHT {
            match self.rebuild_tree() {
                Ok(()) => {},
                Err(e) => {
                    return Err(e);
                },
            }
        }
        let mut mb_current_node = self.leaf[sym];
        assert(self.leaf@[sym as int] matches Some(i) ==> i < self.next_free_node);
        loop
            invariant
                self.wf(),
                mb_current_node matches Some(i) ==> i < self.next_free_node,
                goal == updated(old(self).shape(), sym),
                goal == raised(self.shape(), mb_current_node),
            decreases
                    match mb_current_node {
                        Some(i) => i + 1,
                        None => 0,
                    },
        {
            let mut current_node = match mb_current_node {
                Some(current_node) => current_node,
                None => {
                    return Ok(());
                },
            };
            let ghost c = current_node;
            let mut node = self.nodes[current_node];
            if node.weight == usize::MAX {
                return Err(Error::CodeTooLong);
            }
            node.weight += 1;
            let ghost before = *self;
            self.nodes.set(current_node, node);
            proof {
                lemma_weight_change(before, *self, current_node as int);
            }
            let ghost heavier = self.shape();
            let mut new_node = current_node;
            while new_node > ROOT_NODE
                invariant
                    new_node <= current_node < self.next_free_node,
                    self.wf(),
                    self.shape() == heavier,
                    first_lighter(heavier.nodes, current_node as int, new_node as int)
                        == first_lighter(heavier.nodes, current_node as int, current_node as int),
                ensures
                    new_node <= current_node,
                    new_node == first_lighter(
                        heavier.nodes,
                        current_node as int,
                        current_node as int,
                    ),
                decreases new_node,
            {
                if self.nodes[new_node - 1].weight >= self.nodes[current_node].weight {
                    break ;
                }
                new_node -= 1;
            }
            if new_node != current_node {
                if new_node == ROOT_NODE {
                    return Err(Error::CodeTooLong);
                }
                match self.swap_nodes(current_node, new_node) {
                    Ok(()) => {},
                    Err(e) => {
                        return Err(e);
                    },
                }
                current_node = new_node;
            }
            assert(current_node >= 1 ==> (self.nodes@[current_node as int].parent matches Some(p)
                && p < current_node));
            mb_current_node = self.nodes[current_node].parent;
        }
    }

    /// Let the nodes at `i` and at `j`, which stands before `i`, change
    /// places.  Their parents stay with the places.  Fails where the node
    /// at `j` has a child at or before `i`.
    fn swap_nodes(&mut self, i: usize, j: usize) -> (r: Result<(), Error>)
        requires
            old(self).wf(),
            1 <= j < i < old(self).next_free_node,
        ensures
            final(self).wf(),
            final(self).next_free_node == old(self).next_free_node,
            can_swap(old(self).shape(), i as int, j as int) ==> r is Ok && final(self).shape()
                == swapped(old(self).shape(), i as int, j as int),
            !can_swap(old(self).shape(), i as int, j as int) ==> r == Err::<(), Error>(
                Error::CodeTooLong,
            ) && final(self).shape() == old(self).shape(),
            r matches Err(e) ==> e == Error::CodeTooLong,
    {
        let node_i = self.nodes[i];
        let node_j = self.nodes[j];
        assert(self.nodes@[i as int].child_is_leaf ==> self.nodes@[i as int].child < SYMBOL_COUNT);
        assert(!self.nodes@[i as int].child_is_leaf ==> i < self.nodes@[i as int].child
            && self.nodes@[i as int].child + 1 < self.next_free_node);
        assert(self.nodes@[j as int].child_is_leaf ==> self.nodes@[j as int].child < SYMBOL_COUNT);
        assert(!self.nodes@[j as int].child_is_leaf ==> j < self.nodes@[j as int].child
            && self.nodes@[j as int].child + 1 < self.next_free_node);
        assert(self.nodes@[i as int].parent matches Some(p) && p < i);
        assert(self.nodes@[j as int].parent matches Some(p) && p < j);
        if !node_j.child_is_leaf && node_j.child <= i {
            return Err(Error::CodeTooLong);
        }
        let ghost before = *self;
        if node_i.child_is_leaf {
            self.leaf.set(node_i.child, Some(j));
        } else {
            let child = node_i.child;
            let mut c0 = self.nodes[child];
            c0.parent = Some(j);
            self.nodes.set(child, c0);
            let mut c1 = self.nodes[child + 1];
            c1.parent = Some(j);
            self.nodes.set(child + 1, c1);
        }
        if node_j.child_is_leaf {
            self.leaf.set(node_j.child, Some(i));
        } else {
            let child = node_j.child;
            let mut c0 = self.nodes[child];
            c0.parent = Some(i);
            self.nodes.set(child, c0);
            let mut c1 = self.nodes[child + 1];
            c1.parent = Some(i);
            self.nodes.set(child + 1, c1);
        }
        self.nodes.set(
            i,
            Node {
                weight: node_j.weight,
                parent: node_i.parent,
                child_is_leaf: node_j.child_is_leaf,
                child: node_j.child,
            },
        );
        self.nodes.set(
            j,
            Node {
                weight: node_i.weight,
                parent: node_j.parent,
                child_is_leaf: node_i.child_is_leaf,
                child: node_i.child,
            },
        );
        proof {
            let next = self.next_free_node;
            assert forall|k: int| 0 <= k < next implies if (#[trigger] self.nodes@[k]).child_is_leaf {
                self.nodes@[k].child < SYMBOL_COUNT
            } else {
                k < self.nodes@[k].child && self.nodes@[k].child + 1 < next
            } by {
                if k != i && k != j {
                    assert(self.nodes@[k].child == before.nodes@[k].child);
                    assert(self.nodes@[k].child_is_leaf == before.nodes@[k].child_is_leaf);
                }
            }
            assert forall|k: int| 1 <= k < next implies ((#[trigger] self.nodes@[k]).parent matches Some(
                p,
            ) && p < k) by {
                assert(before.nodes@[k].parent matches Some(p) && p < k);
            }
            assert forall|s: int| 0 <= s < SYMBOL_COUNT implies (#[trigger] self.leaf@[s] matches Some(
                t,
            ) ==> t < next) by {
                assert(before.leaf@[s] matches Some(t) ==> t < next);
            }
            assert(self.shape().leaf =~= swapped(before.shape(), i as int, j as int).leaf);
            assert(self.shape().nodes =~= swapped(before.shape(), i as int, j as int).nodes);
        }
        Ok(())
    }

    /// Halve the weights of the leaves, rounding up, and build the inner
    /// nodes anew.  Fails where the tables do not hold a tree afterwards;
    /// the tree is then as it was.
    fn rebuild_tree(&mut self) -> (r: Result<(), Error>)
        requires
            old(self).wf(),
        ensures
            final(self).wf(),
            match halved(old(self).shape()) {
                Some(h) => r is Ok && final(self).shape() == h,
                None => r == Err::<(), Error>(Error::CodeTooLong) && final(self).shape() == old(self).shape(),
            },
            r matches Err(e) ==> e == Error::CodeTooLong,
    {
        let saved_leaf = copy_leaf(&self.leaf);
        let saved_nodes = copy_nodes(&self.nodes);
        let next = self.next_free_node;
        if self.rebuild(next) && self.validate() {
            Ok(())
        } else {
            // Leave the tree as it was.
            self.leaf = saved_leaf;
            self.nodes = saved_nodes;
            Err(Error::CodeTooLong)
        }
    }

    /// The steps of `rebuild_tree`.  Returns whether they went through.
    fn rebuild(&mut self, next: usize) -> (done: bool)
        requires
            old(self).leaf@.len() == SYMBOL_COUNT,
            old(self).nodes@.len() == NODE_TABLE_COUNT,
            3 <= next <= NODE_TABLE_COUNT,
        ensures
            final(self).leaf@.len() == SYMBOL_COUNT,
            final(self).nodes@.len() == NODE_TABLE_COUNT,
            final(self).next_free_node == old(self).next_free_node,
            match rebuilt(old(self).shape(), next as int) {
                Some(t) => done && final(self).shape() == t,
                None => !done,
            },
    {
        let ghost t0 = self.shape();
        let ghost moved = leaves_moved(t0.nodes, next - 1, next - 1);
        // Move the leaves to the end of the table and halve their weights.
        let mut j: usize = next - 1;
        let mut i: usize = j;
        loop
            invariant_except_break
                moved == leaves_moved(self.nodes@, i as int, j as int),
            invariant
                i < next <= NODE_TABLE_COUNT,
                j < next,
                t0 == old(self).shape(),
                moved == leaves_moved(t0.nodes, next - 1, next - 1),
                self.leaf@ == t0.leaf,
                self.leaf@.len() == SYMBOL_COUNT,
                self.nodes@.len() == NODE_TABLE_COUNT,
                self.next_free_node == old(self).next_free_node,
            ensures
                moved == Some((self.nodes@, j as int)),
            decreases i,
        {
            if self.nodes[i].child_is_leaf {
                let mut n = self.nodes[i];
                if n.weight == usize::MAX || j == 0 {
                    return false;
                }
                n.weight = (n.weight + 1) / 2;
                self.nodes.set(j, n);
                j -= 1;
            }
            if i == ROOT_NODE {
                break ;
            }
            i -= 1;
        }

        // Build the inner nodes from the end of the table, each at its place
        // in the order of the weights.
        i = next - 2;
        let ghost built = inner_built(self.nodes@, next - 2, j as int, next as int);
        loop
            invariant_except_break
                built == inner_built(self.nodes@, i as int, j as int, next as int),
            invariant
                i + 1 < next <= NODE_TABLE_COUNT,
                j < next,
                t0 == old(self).shape(),
                rebuilt(t0, next as int) == match built {
                    None => None::<Shape>,
                    Some(nodes) => all_told(Shape { nodes: nodes, ..t0 }, next - 1),
                },
                self.leaf@ == t0.leaf,
                self.leaf@.len() == SYMBOL_COUNT,
                self.nodes@.len() == NODE_TABLE_COUNT,
                self.next_free_node == old(self).next_free_node,
            ensures
                built == Some(self.nodes@),
            decreases j,
        {
            let w0 = self.nodes[i].weight;
            let w1 = self.nodes[i + 1].weight;
            if w0 > usize::MAX - w1 {
                return false;
            }
            let weight = w0 + w1;
            let ghost before = self.nodes@;
            let mut k: usize = j + 1;
            while k < next && weight < self.nodes[k].weight
                invariant
                    j < k <= next <= NODE_TABLE_COUNT,
                    self.nodes@.len() == NODE_TABLE_COUNT,
                    self.nodes@ == before,
                    place_for(before, weight as int, k as int, next as int) == place_for(
                        before,
                        weight as int,
                        j + 1,
                        next as int,
                    ),
                decreases next - k,
            {
                k += 1;
            }
            k -= 1;
            let mut x: usize = 0;
            while x < k - j
                invariant
                    x <= k - j,
                    j <= k < next <= NODE_TABLE_COUNT,
                    before.len() == NODE_TABLE_COUNT,
                    self.leaf@ == t0.leaf,
                    self.leaf@.len() == SYMBOL_COUNT,
                    self.nodes@.len() == NODE_TABLE_COUNT,
                    self.next_free_node == old(self).next_free_node,
                    self.nodes@ =~= moved_down(before, j as int, j + x),
                decreases k - j - x,
            {
                let moved = self.nodes[j + x + 1];
                self.nodes.set(j + x, moved);
                x += 1;
            }
            let mut n = self.nodes[k];
            n.weight = weight;
            n.child = i;
            n.child_is_leaf = false;
            self.nodes.set(k, n);

            if j == ROOT_NODE {
                break ;
            }
            if i < 2 {
                return false;
            }
            i -= 2;
            j -= 1;
        }

        // Enter the leaves and the parents.
        i = next - 1;
        let ghost goal = all_told(self.shape(), next - 1);
        loop
            invariant_except_break
                goal == all_told(self.shape(), i as int),
            invariant
                i < next <= NODE_TABLE_COUNT,
                t0 == old(self).shape(),
                rebuilt(t0, next as int) == goal,
                self.leaf@.len() == SYMBOL_COUNT,
                self.nodes@.len() == NODE_TABLE_COUNT,
                self.next_free_node == old(self).next_free_node,
            ensures
                goal == Some(self.shape()),
            decreases i,
        {
            let ghost here = self.shape();
            let n = self.nodes[i];
            if n.child_is_leaf {
                if n.child >= SYMBOL_COUNT {
                    return false;
                }
                self.leaf.set(n.child, Some(i));
            } else {
                let k = n.child;
                if k >= NODE_TABLE_COUNT - 1 {
                    return false;
                }
                let mut c0 = self.nodes[k];
                c0.parent = Some(i);
                self.nodes.set(k, c0);
                let mut c1 = self.nodes[k + 1];
                c1.parent = Some(i);
                self.nodes.set(k + 1, c1);
            }
            proof {
                assert(self.shape().leaf =~= told(here, n, i).leaf);
                assert(self.shape().nodes =~= told(here, n, i).nodes);
            }
            if i == ROOT_NODE {
                break ;
            }
            i -= 1;
        }
        true
    }
}

/// A change of the weight of one node leaves the tables a tree.
pub proof fn lemma_weight_change(before: Tree, after: Tree, at: int)
    requires
        before.wf(),
        0 <= at < NODE_TABLE_COUNT,
        after.leaf == before.leaf,
        after.next_free_node == before.next_free_node,
        after.nodes@.len() == before.nodes@.len(),
        forall|k: int| 0 <= k < NODE_TABLE_COUNT && k != at ==> after.nodes@[k] == before.nodes@[k],
        after.nodes@[at].parent == before.nodes@[at].parent,
        after.nodes@[at].child == before.nodes@[at].child,
        after.nodes@[at].child_is_leaf == before.nodes@[at].child_is_leaf,
    ensures
        after.wf(),
{
    let next = after.next_free_node;
    assert forall|k: int| 0 <= k < next implies if (#[trigger] after.nodes@[k]).child_is_leaf {
        after.nodes@[k].child < SYMBOL_COUNT
    } else {
        k < after.nodes@[k].child && after.nodes@[k].child + 1 < next
    } by {
        assert(after.nodes@[k].child == before.nodes@[k].child);
        assert(after.nodes@[k].child_is_leaf == before.nodes@[k].child_is_leaf);
    }
    assert forall|k: int| 1 <= k < next implies ((#[trigger] after.nodes@[k]).parent matches Some(p)
        && p < k) by {
        assert(after.nodes@[k].parent == before.nodes@[k].parent);
    }
}

/// A copy of the table of the leaves.
fn copy_leaf(leaf: &Vec<Option<usize>>) -> (r: Vec<Option<usize>>)
    ensures
        r@ == leaf@,
{
    let mut r: Vec<Option<usize>> = Vec::new();
    let mut i: usize = 0;
    while i < leaf.len()
        invariant
            i <= leaf@.len(),
            r@ == leaf@.take(i as int),
        decreases leaf@.len() - i,
    {
        r.push(leaf[i]);
        proof {
            assert(leaf@.take(i + 1) =~= leaf@.take(i as int).push(leaf@[i as int]));
        }
        i += 1;
    }
    proof {
        assert(leaf@.take(i as int) =~= leaf@);
    }
    r
}

/// A copy of the table of the nodes.
fn copy_nodes(nodes: &Vec<Node>) -> (r: Vec<Node>)
    ensures
        r@ == nodes@,
{
    let mut r: Vec<Node> = Vec::new();
    let mut i: usize = 0;
    while i < nodes.len()
        invariant
            i <= nodes@.len(),
            r@ == nodes@.take(i as int),
        decreases nodes@.len() - i,
    {
        r.push(nodes[i]);
        proof {
            assert(nodes@.take(i + 1) =~= nodes@.take(i as int).push(nodes@[i as int]));
        }
        i += 1;
    }
    proof {
        assert(nodes@.take(i as int) =~= nodes@);
    }
    r
}

/// The code that the way up from the node `current` to the root gives,
/// and the number of its bits, where `code` holds the `size` bits of the
/// way so far and `bit` is the place of the next: a step up from a node
/// with an even index, a second child, puts a one bit there.  `None` where
/// the code would be longer than 64 bits.
pub open spec fn code_up(nodes: Seq<Node>, current: Option<usize>, code: u64, size: int, bit: u64)
    -> Option<(u64, int)>
    decreases
            match current {
                Some(c) => c + 1,
                None => 0,
            },
{
    match current {
        None => Some((code, size)),
        Some(c) => if c == ROOT_NODE {
            Some((code, size))
        } else if size >= MAX_CODE_SIZE {
            None
        } else if (nodes[c as int].parent matches Some(p) && p >= c) {
            None
        } else {
            code_up(
                nodes,
                nodes[c as int].parent,
                if c & 1 == 0 {
                    code | bit
                } else {
                    code
                },
                size + 1,
                bit << 1,
            )
        },
    }
}

/// The bits that are written for `sym` and the tree after them.  A symbol
/// with a leaf is written as its code.  A byte without one is written as
/// the code of the escape and its eight bits, and gets a leaf.  `None`
/// where the code is longer than 64 bits or the byte cannot get a leaf.
pub open spec fn encoded(t: Shape, sym: usize) -> Option<(Seq<bool>, Shape)> {
    let known = t.leaf[sym as int] is Some;
    let start = if known {
        t.leaf[sym as int]
    } else {
        t.leaf[ESCAPE as int]
    };
    match code_up(t.nodes, start, 0, 0, 1) {
        None => None,
        Some((code, size)) => if known {
            Some((crate::bits::value_bits(code, size as nat), t))
        } else if can_add(t) {
            Some(
                (
                    crate::bits::value_bits(code, size as nat) + crate::bits::value_bits(
                        sym as u64,
                        8,
                    ),
                    added(t, sym),
                ),
            )
        } else {
            None
        },
    }
}

/// What a compressor has come to: the bits written and the tree.
pub struct CoderView {
    pub bits: Seq<bool>,
    pub tree: Shape,
}

/// The compressor after `sym` was written and counted.
pub open spec fn coded(v: CoderView, sym: usize) -> Option<CoderView> {
    match encoded(v.tree, sym) {
        None => None,
        Some((bits, t)) => match updated(t, sym) {
            None => None,
            Some(counted) => Some(CoderView { bits: v.bits + bits, tree: counted }),
        },
    }
}

/// The compressor after the bytes were written and counted, one after the
/// other.  `None` where one of them cannot be.
pub open spec fn written(v: CoderView, bytes: Seq<u8>) -> Option<CoderView>
    decreases bytes.len(),
{
    if bytes.len() == 0 {
        Some(v)
    } else {
        match written(v, bytes.drop_last()) {
            None => None,
            Some(before) => coded(before, bytes.last() as usize),
        }
    }
}

/// The bits of a stream that is ended after the compressor came to `v`:
/// the code of the end of the stream follows.
pub open spec fn ended(v: CoderView) -> Option<Seq<bool>> {
    match encoded(v.tree, EOF) {
        None => None,
        Some((bits, t)) => Some(v.bits + bits),
    }
}

/// Where the first bytes cannot be written, the bytes cannot.
pub proof fn lemma_written_fails(v: CoderView, bytes: Seq<u8>, n: int)
    requires
        0 <= n <= bytes.len(),
        written(v, bytes.take(n)) is None,
    ensures
        written(v, bytes) is None,
    decreases bytes.len() - n,
{
    if n < bytes.len() {
        assert(bytes.take(n + 1).drop_last() =~= bytes.take(n));
        lemma_written_fails(v, bytes, n + 1);
    } else {
        assert(bytes.take(n) =~= bytes);
    }
}

/// An adaptive Huffman compressor.
pub struct Writer {
    inner: BitWriter,
    tree: Tree,
}

impl Writer {
    /// The bits of the compressed stream as written so far.
    pub closed spec fn bits(&self) -> Seq<bool> {
        self.inner.bits()
    }

    /// The bytes of the compressed stream that have reached the buffer.
    pub closed spec fn bytes(&self) -> Seq<u8> {
        self.inner.bytes()
    }

    /// The tree.
    pub closed spec fn shape(&self) -> Shape {
        self.tree.shape()
    }

    /// What the compressor has come to.
    pub open spec fn view(&self) -> CoderView {
        CoderView { bits: self.bits(), tree: self.shape() }
    }

    /// The compressor is in order.
    pub closed spec fn wf(&self) -> bool {
        self.inner.wf() && self.tree.wf()
    }

    /// Create a new compressor that appends to `output`.
    pub fn new(output: Vec<u8>) -> (w: Writer)
        ensures
            w.wf(),
            w.bytes() == output@,
            w.bits() == crate::bits::bytes_to_bits(output@),
            w.shape() == first_shape(),
    {
        let w = Writer { inner: BitWriter::new(output), tree: Tree::new() };
        proof {
            assert(w.bits() =~= crate::bits::bytes_to_bits(output@));
        }
        w
    }

    /// Write the code of `sym`: the way from the root down to its leaf, a
    /// zero bit for a step to the first child and a one bit for a step to
    /// the second.  A byte that the tree does not hold is written as the
    /// code of the escape and its eight bits, and gets a leaf.  The model is
    /// not updated.  Fails where the code is longer than 64 bits or the
    /// symbol cannot get a leaf.
    pub fn encode_symbol(&mut self, sym: Symbol) -> (r: Result<(), Error>)
        requires
            old(self).wf(),
            sym < SYMBOL_COUNT,
        ensures
            final(self).wf(),
            match encoded(old(self).shape(), sym) {
                Some((bits, t)) => r is Ok && final(self).bits() == old(self).bits() + bits
                    && final(self).shape() == t,
                None => r == Err::<(), Error>(Error::CodeTooLong),
            },
            r matches Err(e) ==> e == Error::CodeTooLong,
            extends(final(self).bits(), old(self).bits()),
    {
        let ghost start = self.bits();
        let ghost t0 = self.tree.shape();
        proof {
            lemma_extends_self(start);
        }
        let mut code: u64 = 0;
        let mut code_size: usize = 0;
        let mut current_bit: u64 = 1;

        let known = self.tree.leaf[sym].is_some();
        let mut mb_current_node = self.tree.leaf[sym];

        if !known {
            mb_current_node = self.tree.leaf[ESCAPE];
        }
        assert(self.tree.leaf@[sym as int] matches Some(i) ==> i < self.tree.next_free_node);
        assert(self.tree.leaf@[ESCAPE as int] matches Some(i) ==> i < self.tree.next_free_node);
        let ghost way = code_up(t0.nodes, mb_current_node, 0, 0, 1);

        loop
            invariant
                self.wf(),
                self.bits() == start,
                self.tree.shape() == t0,
                start == old(self).bits(),
                t0 == old(self).shape(),
                extends(start, start),
                code_size <= MAX_CODE_SIZE,
                mb_current_node matches Some(i) ==> i < self.tree.next_free_node,
                way == code_up(t0.nodes, mb_current_node, code, code_size as int, current_bit),
                way == code_up(
                    t0.nodes,
                    if t0.leaf[sym as int] is Some {
                        t0.leaf[sym as int]
                    } else {
                        t0.leaf[ESCAPE as int]
                    },
                    0,
                    0,
                    1,
                ),
            ensures
                way == Some((code, code_size as int)),
            decreases
                    match mb_current_node {
                        Some(i) => i + 1,
                        None => 0,
                    },
        {
            let current_node = match mb_current_node {
                Some(current_node) => current_node,
                None => {
                    break ;
                },
            };
            if current_node == ROOT_NODE {
                break ;
            }
            if code_size >= MAX_CODE_SIZE {
                return Err(Error::CodeTooLong);
            }
            if current_node & 1 == 0 {
                code = code | current_bit;
            }
            current_bit = current_bit << 1;
            code_size += 1;
            assert(self.tree.nodes@[current_node as int].parent matches Some(p) && p < current_node);
            mb_current_node = self.tree.nodes[current_node].parent;
        }

        let _ = self.inner.write_bits(code, code_size);
        proof {
            lemma_extends_more(start, crate::bits::value_bits(code, code_size as nat), start);
        }
        if !known {
            let ghost mid = self.bits();
            let _ = self.inner.write_bits(sym as u64, 8);
            proof {
                lemma_extends_more(mid, crate::bits::value_bits(sym as u64, 8), start);
                assert(self.bits() =~= start + (crate::bits::value_bits(code, code_size as nat)
                    + crate::bits::value_bits(sym as u64, 8)));
            }
            match self.tree.add_new_node(sym) {
                Ok(()) => {},
                Err(e) => {
                    return Err(e);
                },
            }
        }
        Ok(())
    }

    /// Give up the compressor for the buffer it wrote to.  Bits of an
    /// unfinished byte that was not flushed are lost.
    pub fn into_inner(self) -> (inner: Vec<u8>)
        ensures
            inner@ == self.bytes(),
    {
        self.inner.to_inner()
    }

    /// Compress the bytes of `buffer` and return their number.  Fails where
    /// the tree gets into a shape that cannot be coded.
    pub fn write(&mut self, buffer: &[u8]) -> (r: Result<usize, Error>)
        requires
            old(self).wf(),
        ensures
            final(self).wf(),
            match written(old(self).view(), buffer@) {
                Some(v) => r == Ok::<usize, Error>(buffer@.len() as usize) && final(self).view()
                    == v,
                None => r == Err::<usize, Error>(Error::CodeTooLong),
            },
            r matches Ok(n) ==> n == buffer@.len(),
            r matches Err(e) ==> e == Error::CodeTooLong,
            extends(final(self).bits(), old(self).bits()),
    {
        let ghost start = self.bits();
        let ghost v0 = self.view();
        proof {
            lemma_extends_self(start);
            assert(buffer@.take(0) =~= Seq::<u8>::empty());
        }
        let mut i: usize = 0;
        while i < buffer.len()
            invariant
                i <= buffer@.len(),
                self.wf(),
                start == old(self).bits(),
                v0 == old(self).view(),
                written(v0, buffer@.take(i as int)) == Some(self.view()),
                extends(self.bits(), start),
            decreases buffer@.len() - i,
        {
            let sym = buffer[i] as Symbol;
            let ghost mid = self.bits();
            proof {
                assert(buffer@.take(i + 1).drop_last() =~= buffer@.take(i as int));
            }
            let r = self.encode_symbol(sym);
            proof {
                lemma_extends_trans(self.bits(), mid, start);
            }
            match r {
                Ok(()) => {},
                Err(e) => {
                    proof {
                        lemma_written_fails(v0, buffer@, i + 1);
                    }
                    return Err(e);
                },
            }
            match self.update_model(sym) {
                Ok(()) => {},
                Err(e) => {
                    proof {
                        lemma_written_fails(v0, buffer@, i + 1);
                    }
                    return Err(e);
                },
            }
            i += 1;
        }
        proof {
            assert(buffer@.take(i as int) =~= buffer@);
        }
        Ok(buffer.len())
    }

    /// Count one more occurrence of `sym` in the tree.
    fn update_model(&mut self, sym: Symbol) -> (r: Result<(), Error>)
        requires
            old(self).wf(),
            sym < SYMBOL_COUNT,
        ensures
            final(self).wf(),
            final(self).bits() == old(self).bits(),
            final(self).inner == old(self).inner,
            match updated(old(self).shape(), sym) {
                Some(t) => r is Ok && final(self).shape() == t,
                None => r == Err::<(), Error>(Error::CodeTooLong),
            },
    {
        self.tree.update_model(sym)
    }

    /// Write the code of the end of the stream, and send the unfinished
    /// byte to the buffer, its missing bits zero.
    pub fn flush(&mut self) -> (r: Result<(), Error>)
        requires
            old(self).wf(),
        ensures
            final(self).wf(),
            match ended(old(self).view()) {
                Some(bits) => r is Ok && final(self).bytes() == crate::bits::pack_bits(bits),
                None => r == Err::<(), Error>(Error::CodeTooLong),
            },
            r matches Err(e) ==> e == Error::CodeTooLong,
            r is Ok ==> exists|coded: Seq<bool>| #[trigger]
                extends(coded, old(self).bits()) && final(self).bytes() == crate::bits::pack_bits(
                    coded,
                ),
    {
        match self.encode_symbol(EOF) {
            Ok(()) => {},
            Err(e) => {
                return Err(e);
            },
        }
        let ghost coded = self.bits();
        let _ = self.inner.flush();
        proof {
            assert(extends(coded, old(self).bits()));
        }
        Ok(())
    }
}

/// The leaf at which the way down from `node` ends, each step by one bit
/// of the input, and the input behind the bits.  `None` where the input
/// ends before a leaf.
pub open spec fn walked(nodes: Seq<Node>, node: int, src: BitSource) -> Option<(int, BitSource)>
    decreases NODE_TABLE_COUNT - node,
{
    if node < 0 || node >= NODE_TABLE_COUNT {
        None
    } else if nodes[node].child_is_leaf {
        Some((node, src))
    } else if src.remaining() == 0 || nodes[node].child <= node || nodes[node].child + 1
        >= NODE_TABLE_COUNT {
        None
    } else {
        walked(
            nodes,
            nodes[node].child + if src.head() {
                1int
            } else {
                0int
            },
            src.tail(),
        )
    }
}

/// A symbol that was read: the symbol, the tree after it, and the input
/// behind it.
pub struct Found {
    pub sym: usize,
    pub tree: Shape,
    pub src: BitSource,
}

/// The symbol at the start of the input.  A byte that follows an escape
/// gets a leaf.  Fails where the input ends within the symbol, or the byte
/// cannot get a leaf.
pub open spec fn symbol_at(t: Shape, src: BitSource) -> Result<Found, Error> {
    match walked(t.nodes, ROOT_NODE as int, src) {
        None => Err(Error::UnexpectedEof),
        Some((leaf, rest)) => if t.nodes[leaf].child == ESCAPE {
            if rest.remaining() < 8 {
                Err(Error::UnexpectedEof)
            } else if !can_add(t) {
                Err(Error::CodeTooLong)
            } else {
                Ok(
                    Found {
                        sym: crate::bits::bits_value(rest.take(8)) as usize,
                        tree: added(t, crate::bits::bits_value(rest.take(8)) as usize),
                        src: rest.skip(8),
                    },
                )
            }
        } else {
            Ok(Found { sym: t.nodes[leaf].child, tree: t, src: rest })
        },
    }
}

/// What a decompressor has come to: the tree, the input that was not read,
/// and whether the end of the stream was found.
pub struct ReaderView {
    pub tree: Shape,
    pub src: BitSource,
    pub eof: bool,
}

/// The next byte, or `None` at the end of the stream, and the decompressor
/// after it: the symbol at the start of the input is read, and a byte is
/// counted in the tree.
pub open spec fn byte_read(v: ReaderView) -> Result<(Option<u8>, ReaderView), Error> {
    if v.eof {
        Ok((None, v))
    } else {
        match symbol_at(v.tree, v.src) {
            Err(e) => Err(e),
            Ok(f) => if f.sym == EOF {
                Ok((None, ReaderView { tree: f.tree, src: f.src, eof: true }))
            } else {
                match updated(f.tree, f.sym) {
                    None => Err(Error::CodeTooLong),
                    Some(t) => Ok(
                        (Some(f.sym as u8), ReaderView { tree: t, src: f.src, eof: false }),
                    ),
                }
            },
        }
    }
}

/// A result with `done` put before the bytes of a success.
pub open spec fn behind(done: Seq<u8>, r: Result<(Seq<u8>, ReaderView), Error>) -> Result<
    (Seq<u8>, ReaderView),
    Error,
> {
    match r {
        Ok((s, v)) => Ok((done + s, v)),
        Err(e) => Err(e),
    }
}

/// All bytes up to the end of the stream, and the decompressor after them.
pub open spec fn all_read(v: ReaderView) -> Result<(Seq<u8>, ReaderView), Error>
    decreases v.src.remaining(),
{
    match byte_read(v) {
        Err(e) => Err(e),
        Ok((None, w)) => Ok((Seq::empty(), w)),
        Ok((Some(b), w)) => if w.src.remaining() < v.src.remaining() {
            behind(seq![b], all_read(w))
        } else {
            Err(Error::UnexpectedEof)
        },
    }
}

/// What decompressing `input` gives.
pub open spec fn decoded(input: Seq<u8>) -> Result<(Seq<u8>, ReaderView), Error> {
    all_read(
        ReaderView {
            tree: first_shape(),
            src: BitSource { bits: crate::bits::bytes_to_bits(input), extra: 0 },
            eof: false,
        },
    )
}

/// The bits of the stream that compressing `input` behind the bytes
/// `output` gives; `None` where the tree gets into a shape that cannot be
/// coded.
pub open spec fn compressed(output: Seq<u8>, input: Seq<u8>) -> Option<Seq<bool>> {
    match written(
        CoderView { bits: crate::bits::bytes_to_bits(output), tree: first_shape() },
        input,
    ) {
        None => None,
        Some(v) => ended(v),
    }
}

/// An adaptive Huffman decompressor.
pub struct Reader<'a> {
    inner: BitReader<'a>,
    tree: Tree,
    eof: bool,
}

impl<'a> View for Reader<'a> {
    type V = ReaderView;

    closed spec fn view(&self) -> ReaderView {
        ReaderView { tree: self.tree.shape(), src: self.inner@, eof: self.eof }
    }
}

impl<'a> Reader<'a> {
    /// The number of bits of the input that were not read.
    pub open spec fn remaining(&self) -> nat {
        self@.src.remaining()
    }

    /// Whether the end of the stream was found.
    pub open spec fn at_eof(&self) -> bool {
        self@.eof
    }

    /// The decompressor is in order.
    pub closed spec fn wf(&self) -> bool {
        self.inner.wf() && self.tree.wf()
    }

    /// Create a new decompressor for the data in `input`.
    pub fn new(input: &'a [u8]) -> (r: Reader<'a>)
        ensures
            r.wf(),
            !r.at_eof(),
            r.remaining() == 8 * input@.len(),
            r@ == (ReaderView {
                tree: first_shape(),
                src: BitSource { bits: crate::bits::bytes_to_bits(input@), extra: 0 },
                eof: false,
            }),
    {
        Reader { inner: BitReader::new(input), tree: Tree::new(), eof: false }
    }

    /// Read one bit.
    fn bit(&mut self) -> (r: Result<usize, Error>)
        requires
            old(self).inner.wf(),
        ensures
            final(self).inner.wf(),
            final(self).tree == old(self).tree,
            final(self).eof == old(self).eof,
            old(self).inner@.remaining() > 0 ==> r == Ok::<usize, Error>(
                if old(self).inner@.head() {
                    1usize
                } else {
                    0usize
                },
            ) && final(self).inner@ == old(self).inner@.tail(),
            old(self).inner@.remaining() == 0 ==> r == Err::<usize, Error>(Error::UnexpectedEof)
                && final(self).inner@ == old(self).inner@,
            final(self).remaining() <= old(self).remaining(),
            r matches Ok(b) ==> b <= 1 && final(self).remaining() < old(self).remaining(),
            r matches Err(e) ==> e == Error::UnexpectedEof,
    {
        match self.inner.read_bit() {
            Ok(b) => Ok(
                if b {
                    1
                } else {
                    0
                },
            ),
            Err(e) => Err(e),
        }
    }

    /// Read the code of a symbol: go down from the root, by one bit for each
    /// step, to a leaf.  A byte that follows an escape gets a leaf.  The
    /// model is not updated.
    fn decode_symbol(&mut self) -> (r: Result<Symbol, Error>)
        requires
            old(self).wf(),
        ensures
            final(self).wf(),
            match symbol_at(old(self)@.tree, old(self)@.src) {
                Ok(f) => r == Ok::<Symbol, Error>(f.sym) && final(self)@ == (ReaderView {
                    tree: f.tree,
                    src: f.src,
                    eof: old(self)@.eof,
                }),
                Err(e) => r == Err::<Symbol, Error>(e),
            },
            final(self).eof == old(self).eof,
            final(self).remaining() <= old(self).remaining(),
            r matches Ok(sym) ==> sym < SYMBOL_COUNT && sym != ESCAPE && final(self).remaining()
                < old(self).remaining(),
            r matches Err(e) ==> e == Error::UnexpectedEof || e == Error::CodeTooLong,
    {
        let mut current_node: usize = ROOT_NODE;
        let ghost t0 = self.tree.shape();
        let ghost way = walked(t0.nodes, ROOT_NODE as int, self.inner@);

        while !self.tree.nodes[current_node].child_is_leaf
            invariant
                self.wf(),
                self.eof == old(self).eof,
                self.tree.shape() == t0,
                t0 == old(self)@.tree,
                way == walked(t0.nodes, ROOT_NODE as int, old(self)@.src),
                way == walked(t0.nodes, current_node as int, self.inner@),
                current_node < self.tree.next_free_node,
                self.remaining() <= old(self).remaining(),
                current_node != ROOT_NODE ==> self.remaining() < old(self).remaining(),
            decreases NODE_TABLE_COUNT - current_node,
        {
            assert(current_node < self.tree.nodes@[current_node as int].child
                && self.tree.nodes@[current_node as int].child + 1 < self.tree.next_free_node);
            let child = self.tree.nodes[current_node].child;
            let b = match self.bit() {
                Ok(b) => b,
                Err(e) => {
                    return Err(e);
                },
            };
            current_node = child + b;
        }
        assert(current_node != ROOT_NODE);
        assert(self.tree.nodes@[current_node as int].child < SYMBOL_COUNT);
        let mut c = self.tree.nodes[current_node].child;
        if c == ESCAPE {
            let src = Ghost(self.inner@);
            proof {
                src@.lemma_take_one_more(8);
                crate::bits::lemma_bits_value_bound(src@.take(8));
                vstd::arithmetic::power2::lemma2_to64();
            }
            c = match self.inner.read_bits(8) {
                Ok(v) => v as usize,
                Err(e) => {
                    return Err(e);
                },
            };
            match self.tree.add_new_node(c) {
                Ok(()) => {},
                Err(e) => {
                    return Err(e);
                },
            }
        }
        Ok(c)
    }

    /// Decompress the next byte, or find the end of the stream.
    pub fn read_byte(&mut self) -> (r: Result<Option<u8>, Error>)
        requires
            old(self).wf(),
        ensures
            final(self).wf(),
            match byte_read(old(self)@) {
                Ok((b, v)) => r == Ok::<Option<u8>, Error>(b) && final(self)@ == v,
                Err(e) => r == Err::<Option<u8>, Error>(e),
            },
            final(self).remaining() <= old(self).remaining(),
            r matches Ok(Some(b)) ==> !old(self).at_eof() && !final(self).at_eof() && final(self).remaining() < old(self).remaining(),
            r matches Ok(None) ==> final(self).at_eof(),
            r matches Err(e) ==> e == Error::UnexpectedEof || e == Error::CodeTooLong,
    {
        if self.eof {
            return Ok(None);
        }
        let s = match self.decode_symbol() {
            Ok(s) => s,
            Err(e) => {
                return Err(e);
            },
        };
        if s == EOF {
            self.eof = true;
            return Ok(None);
        }
        match self.tree.update_model(s) {
            Ok(()) => {},
            Err(e) => {
                return Err(e);
            },
        }
        Ok(Some(s as u8))
    }

    /// Decompress all bytes up to the end of the stream and append them to
    /// `output`.  Returns the number of bytes appended.  Fails where the
    /// input ends before the end of the stream.
    pub fn read_to_end(&mut self, output: &mut Vec<u8>) -> (r: Result<usize, Error>)
        requires
            old(self).wf(),
        ensures
            final(self).wf(),
            match all_read(old(self)@) {
                Ok((s, v)) => r == Ok::<usize, Error>(s.len() as usize) && final(output)@ == old(output)@ + s && final(self)@ == v,
                Err(e) => r == Err::<usize, Error>(e),
            },
            r matches Ok(n) ==> final(self).at_eof() && final(output)@.len() == old(output)@.len()
                + n && final(output)@.take(old(output)@.len() as int) == old(output)@,
            r matches Err(e) ==> e == Error::UnexpectedEof || e == Error::CodeTooLong,
    {
        let begin: usize = output.len();
        let ghost goal = all_read(self@);
        let ghost mut done: Seq<u8> = Seq::empty();
        proof {
            assert(output@.take(output@.len() as int) =~= output@);
            assert(output@ + done =~= output@);
            assert(behind(done, goal) == goal) by {
                if goal is Ok {
                    assert(done + goal->Ok_0.0 =~= goal->Ok_0.0);
                }
            }
        }
        loop
            invariant
                self.wf(),
                begin == old(output)@.len(),
                output@.len() >= begin,
                output@.take(begin as int) == old(output)@,
                output@ == old(output)@ + done,
                goal == all_read(old(self)@),
                goal == behind(done, all_read(self@)),
            decreases self.remaining(),
        {
            let ghost here = self@;
            match self.read_byte() {
                Ok(Some(b)) => {
                    let ghost before = output@;
                    output.push(b);
                    proof {
                        assert(output@.take(begin as int) =~= before.take(begin as int));
                        let next = all_read(self@);
                        assert(all_read(here) == behind(seq![b], next));
                        assert(output@ =~= old(output)@ + (done + seq![b]));
                        assert(goal == behind(done + seq![b], next)) by {
                            if next is Ok {
                                assert(done + (seq![b] + next->Ok_0.0) =~= (done + seq![b])
                                    + next->Ok_0.0);
                            }
                        }
                        done = done + seq![b];
                    }
                },
                Ok(None) => {
                    proof {
                        assert(done + Seq::<u8>::empty() =~= done);
                        assert(output@.len() == begin + done.len());
                    }
                    return Ok(output.len() - begin);
                },
                Err(e) => {
                    return Err(e);
                },
            }
        }
    }
}

/// Compress `input` and append the compressed data to `output`.  Fails
/// where the tree gets into a shape that cannot be coded.
pub fn compress(input: &[u8], output: Vec<u8>) -> (r: Result<Vec<u8>, Error>)
    ensures
        match compressed(output@, input@) {
            Some(bits) => r matches Ok(out) && out@ == crate::bits::pack_bits(bits),
            None => r matches Err(e) && e == Error::CodeTooLong,
        },
        r matches Ok(out) ==> exists|coded: Seq<bool>| #[trigger]
            extends(coded, crate::bits::bytes_to_bits(output@)) && out@ == crate::bits::pack_bits(
                coded,
            ),
        r matches Err(e) ==> e == Error::CodeTooLong,
{
    let mut cw = Writer::new(output);
    let ghost start = cw.bits();
    match cw.write(input) {
        Ok(_) => {},
        Err(e) => {
            return Err(e);
        },
    }
    let ghost mid = cw.bits();
    match cw.flush() {
        Ok(()) => {},
        Err(e) => {
            return Err(e);
        },
    }
    proof {
        let coded = choose|coded: Seq<bool>| #[trigger]
            extends(coded, mid) && cw.bytes() == crate::bits::pack_bits(coded);
        lemma_extends_trans(coded, mid, start);
    }
    Ok(cw.into_inner())
}

/// Decompress the data in `input` and append the decompressed bytes to
/// `output`.  Fails where the input ends before the end of the stream.
pub fn decompress(input: &[u8], output: Vec<u8>) -> (r: Result<Vec<u8>, Error>)
    ensures
        match decoded(input@) {
            Ok((s, v)) => r matches Ok(out) && out@ == output@ + s,
            Err(e) => r matches Err(x) && x == e,
        },
        r matches Ok(out) ==> out@.len() >= output@.len() && out@.take(output@.len() as int)
            == output@,
        r matches Err(e) ==> e == Error::UnexpectedEof || e == Error::CodeTooLong,
{
    let mut out = output;
    let mut cr = Reader::new(input);
    match cr.read_to_end(&mut out) {
        Ok(_) => Ok(out),
        Err(e) => Err(e),
    }
}

} // verus!
