//! The mathematical model of a tree: the node table together with the
//! bookkeeping that places every live node in the sorted order, and the
//! predicates that make such a table a red-black tree.

use vstd::prelude::*;
use crate::order::{le, lt};
use crate::rbtree::{Color, Link, NilNode, Node};

verus! {

/// What the model records about one slot of the node table.
///
/// A live node has a position `rank` in the sorted order, and its subtree
/// covers exactly the positions `lo <= k < hi`. `bh` counts the black nodes on
/// every path from the node down to the sentinel, the node itself left out.
pub struct Meta {
    pub live: bool,
    pub rank: int,
    pub lo: int,
    pub hi: int,
    pub bh: int,
}

/// The model of a tree.
///
/// `nodes` is the node table, `free` lists the slots that hold no node,
/// `order` lists the live slots by ascending position, and `meta` has one
/// record per slot.
pub struct Model<T> {
    pub nodes: Seq<Node<T>>,
    pub root: Link,
    pub nil: NilNode,
    pub free: Seq<usize>,
    pub order: Seq<usize>,
    pub meta: Seq<Meta>,
}

/// One of the two child positions of a node.
#[derive(Debug, PartialEq, Eq, Clone, Copy, Structural)]
pub enum Side {
    Left,
    Right,
}

impl Side {
    /// The opposite side.
    pub open spec fn flip(self) -> Side {
        match self {
            Side::Left => Side::Right,
            Side::Right => Side::Left,
        }
    }

    /// The opposite side.
    pub fn other(self) -> (s: Side)
        ensures
            s == self.flip(),
    {
        match self {
            Side::Left => Side::Right,
            Side::Right => Side::Left,
        }
    }
}

impl<T> Node<T> {
    /// The child link on side `s`.
    pub open spec fn child(self, s: Side) -> Link {
        match s {
            Side::Left => self.left,
            Side::Right => self.right,
        }
    }
}

impl Link {
    /// The index behind a real link.
    pub open spec fn index(self) -> usize {
        match self {
            Link::Real(i) => i,
            Link::Nil => 0,
        }
    }
}

impl<T> Model<T> {
    /// The node in slot `i`.
    pub open spec fn node(self, i: usize) -> Node<T> {
        self.nodes[i as int]
    }

    /// The record of slot `i`.
    pub open spec fn m(self, i: usize) -> Meta {
        self.meta[i as int]
    }

    /// Slot `i` holds a node of the tree.
    pub open spec fn is_node(self, i: usize) -> bool {
        (i as int) < self.nodes.len() && self.m(i).live
    }

    /// The number of nodes in the tree.
    pub open spec fn size(self) -> int {
        self.order.len() as int
    }

    /// The value at position `k` of the sorted order.
    pub open spec fn value_at(self, k: int) -> T {
        self.node(self.order[k]).value
    }

    /// The values of the tree by ascending position.
    pub open spec fn in_order(self) -> Seq<T> {
        Seq::new(self.order.len(), |k: int| self.value_at(k))
    }

    /// The number of nodes in the subtree behind `l`.
    pub open spec fn span(self, l: Link) -> int {
        match l {
            Link::Real(i) => self.m(i).hi - self.m(i).lo,
            Link::Nil => 0,
        }
    }

    /// `l` is a link of the tree.
    pub open spec fn link_ok(self, l: Link) -> bool {
        l matches Link::Real(i) ==> self.is_node(i)
    }

    /// The colour behind a link; the sentinel answers for `Nil`.
    pub open spec fn color_of(self, l: Link) -> Color {
        match l {
            Link::Real(i) => self.node(i).color,
            Link::Nil => self.nil.color,
        }
    }

    /// The left child of `i` points back to `i` and covers the positions
    /// before that of `i`.
    pub open spec fn left_ok(self, i: usize) -> bool {
        match self.node(i).left {
            Link::Real(l) => {
                &&& self.is_node(l)
                &&& self.node(l).parent == Link::Real(i)
                &&& self.m(l).lo == self.m(i).lo
                &&& self.m(l).hi == self.m(i).rank
            },
            Link::Nil => self.m(i).lo == self.m(i).rank,
        }
    }

    /// The right child of `i` points back to `i` and covers the positions
    /// behind that of `i`.
    pub open spec fn right_ok(self, i: usize) -> bool {
        match self.node(i).right {
            Link::Real(r) => {
                &&& self.is_node(r)
                &&& self.node(r).parent == Link::Real(i)
                &&& self.m(r).lo == self.m(i).rank + 1
                &&& self.m(r).hi == self.m(i).hi
            },
            Link::Nil => self.m(i).hi == self.m(i).rank + 1,
        }
    }

    /// The parent of `i` holds `i` as a child; the root has the sentinel for
    /// its parent.
    pub open spec fn parent_ok(self, i: usize) -> bool {
        match self.node(i).parent {
            Link::Real(p) => {
                &&& self.is_node(p)
                &&& (self.node(p).left == Link::Real(i) || self.node(p).right == Link::Real(i))
            },
            Link::Nil => self.root == Link::Real(i),
        }
    }

    /// Node `i` is linked consistently with its neighbours: its children
    /// point back to it and cover the positions on either side of its own,
    /// and its parent holds it as a child.
    pub open spec fn node_ok(self, i: usize) -> bool {
        &&& 0 <= self.m(i).lo <= self.m(i).rank < self.m(i).hi <= self.size()
        &&& self.order[self.m(i).rank] == i
        &&& self.left_ok(i)
        &&& self.right_ok(i)
        &&& self.parent_ok(i)
    }

    /// The root covers all positions; an empty tree has the sentinel for its
    /// root.
    pub open spec fn root_ok(self) -> bool {
        match self.root {
            Link::Real(r) => {
                &&& self.is_node(r)
                &&& self.node(r).parent == Link::Nil
                &&& self.m(r).lo == 0
                &&& self.m(r).hi == self.size()
            },
            Link::Nil => self.size() == 0,
        }
    }

    /// Every position of the order holds a live node that records that
    /// position.
    pub open spec fn order_ok(self) -> bool {
        forall|k: int|
            0 <= k < self.order.len() ==> self.is_node(#[trigger] self.order[k]) && self.m(
                self.order[k],
            ).rank == k
    }

    /// The free list holds slots without a node, each once.
    pub open spec fn free_ok(self) -> bool {
        &&& forall|j: int|
            0 <= j < self.free.len() ==> (#[trigger] self.free[j] as int) < self.nodes.len()
                && !self.m(self.free[j]).live
        &&& forall|j: int, k: int|
            0 <= j < k < self.free.len() ==> self.free[j] != self.free[k]
    }

    /// The links form one binary tree that holds every live node once, laid
    /// out along `order`; every other slot is on the free list.
    pub open spec fn structure_ok(self) -> bool {
        &&& self.meta.len() == self.nodes.len()
        &&& self.nodes.len() == self.order.len() + self.free.len()
        &&& forall|i: usize| self.is_node(i) ==> #[trigger] self.node_ok(i)
        &&& self.order_ok()
        &&& self.root_ok()
        &&& self.free_ok()
    }

    /// The black nodes on a path from just above `l` down to the sentinel.
    pub open spec fn black_count(self, l: Link) -> int {
        match l {
            Link::Real(c) => self.m(c).bh + if self.node(c).color == Color::Black {
                1int
            } else {
                0int
            },
            Link::Nil => 0,
        }
    }

    /// Both subtrees of `i` have the black height that `meta` records.
    pub open spec fn bh_ok(self, i: usize) -> bool {
        &&& self.m(i).bh >= 0
        &&& self.black_count(self.node(i).left) == self.m(i).bh
        &&& self.black_count(self.node(i).right) == self.m(i).bh
    }

    /// A red node `i` has no red child.
    pub open spec fn rr_ok(self, i: usize) -> bool {
        self.node(i).color == Color::Red ==> self.color_of(self.node(i).left) == Color::Black
            && self.color_of(self.node(i).right) == Color::Black
    }

    /// A red node `i` has no red child, `x` left out of the test.
    pub open spec fn rr_ok_except(self, i: usize, x: Link) -> bool {
        self.node(i).color == Color::Red && Link::Real(i) != x ==> {
            &&& self.node(i).left == x || self.color_of(self.node(i).left) == Color::Black
            &&& self.node(i).right == x || self.color_of(self.node(i).right) == Color::Black
        }
    }

    /// The sentinel is black.
    pub open spec fn sentinel_black(self) -> bool {
        self.nil.color == Color::Black
    }

    /// The root is black, or the tree is empty.
    pub open spec fn root_black(self) -> bool {
        self.color_of(self.root) == Color::Black
    }

    /// No red node has a red child.
    pub open spec fn no_red_red(self) -> bool {
        forall|i: usize| self.is_node(i) ==> #[trigger] self.rr_ok(i)
    }

    /// Every path from a node down to the sentinel passes the same number of
    /// black nodes.
    pub open spec fn black_balanced(self) -> bool {
        forall|i: usize| self.is_node(i) ==> #[trigger] self.bh_ok(i)
    }

    /// The table with the left link of node `i` set to `l`.
    pub open spec fn set_left(self, i: usize, l: Link) -> Model<T> {
        Model { nodes: self.nodes.update(i as int, Node { left: l, ..self.node(i) }), ..self }
    }

    /// The table with the right link of node `i` set to `l`.
    pub open spec fn set_right(self, i: usize, l: Link) -> Model<T> {
        Model { nodes: self.nodes.update(i as int, Node { right: l, ..self.node(i) }), ..self }
    }

    /// The table with the parent link of node `i` set to `l`.
    pub open spec fn set_parent(self, i: usize, l: Link) -> Model<T> {
        Model { nodes: self.nodes.update(i as int, Node { parent: l, ..self.node(i) }), ..self }
    }

    /// The table with the colour of node `i` set to `c`.
    pub open spec fn set_color(self, i: usize, c: Color) -> Model<T> {
        Model { nodes: self.nodes.update(i as int, Node { color: c, ..self.node(i) }), ..self }
    }

    /// The table with the value of node `i` set to `v`.
    pub open spec fn set_value(self, i: usize, v: T) -> Model<T> {
        Model { nodes: self.nodes.update(i as int, Node { value: v, ..self.node(i) }), ..self }
    }

    /// The table with the child link of node `i` on side `s` set to `l`.
    pub open spec fn set_child(self, i: usize, s: Side, l: Link) -> Model<T> {
        match s {
            Side::Left => self.set_left(i, l),
            Side::Right => self.set_right(i, l),
        }
    }

    /// The table with the root link set to `l`.
    pub open spec fn set_root(self, l: Link) -> Model<T> {
        Model { root: l, ..self }
    }

    /// The table with the record of slot `i` set to `m`.
    pub open spec fn set_meta(self, i: usize, m: Meta) -> Model<T> {
        Model { meta: self.meta.update(i as int, m), ..self }
    }

    /// `r` is the table `self` with other colours and black heights: the
    /// links, the values and the order are those of `self`.
    pub open spec fn painted(self, r: Model<T>) -> bool {
        &&& r.nodes.len() == self.nodes.len()
        &&& r.meta.len() == self.meta.len()
        &&& r.order == self.order
        &&& r.free == self.free
        &&& r.root == self.root
        &&& r.nil == self.nil
        &&& forall|i: usize|
            (i as int) < self.nodes.len() ==> {
                &&& (#[trigger] r.node(i)).value == self.node(i).value
                &&& r.node(i).left == self.node(i).left
                &&& r.node(i).right == self.node(i).right
                &&& r.node(i).parent == self.node(i).parent
            }
        &&& forall|i: usize|
            (i as int) < self.nodes.len() ==> {
                &&& (#[trigger] r.m(i)).live == self.m(i).live
                &&& r.m(i).rank == self.m(i).rank
                &&& r.m(i).lo == self.m(i).lo
                &&& r.m(i).hi == self.m(i).hi
            }
    }

    /// `r` holds the nodes of `self`, each with the value and the position
    /// that it has in `self`.
    pub open spec fn same_nodes(self, r: Model<T>) -> bool {
        &&& r.nodes.len() == self.nodes.len()
        &&& r.meta.len() == self.meta.len()
        &&& forall|i: usize|
            (i as int) < self.nodes.len() ==> (#[trigger] r.node(i)).value == self.node(i).value
        &&& forall|i: usize|
            (i as int) < self.nodes.len() ==> (#[trigger] r.m(i)).live == self.m(i).live && r.m(
                i,
            ).rank == self.m(i).rank
    }

    /// Other colours leave the table one tree over the same values.
    pub proof fn lemma_painted(self, r: Model<T>)
        requires
            self.structure_ok(),
            self.painted(r),
        ensures
            r.structure_ok(),
            r.in_order() == self.in_order(),
            forall|k: int| 0 <= k < self.size() ==> #[trigger] r.value_at(k) == self.value_at(k),
    {
        assert forall|i: usize| r.is_node(i) implies #[trigger] r.node_ok(i) by {
            assert(self.is_node(i));
            assert(self.node_ok(i));
            assert(r.left_ok(i));
            assert(r.right_ok(i));
            assert(r.parent_ok(i));
        }
        assert forall|k: int| 0 <= k < r.order.len() implies r.is_node(#[trigger] r.order[k])
            && r.m(r.order[k]).rank == k by {
            assert(self.is_node(self.order[k]));
        }
        assert forall|j: int| 0 <= j < r.free.len() implies (#[trigger] r.free[j] as int)
            < r.nodes.len() && !r.m(r.free[j]).live by {
            assert((self.free[j] as int) < self.nodes.len());
        }
        assert forall|k: int| 0 <= k < self.size() implies #[trigger] r.value_at(k)
            == self.value_at(k) by {
            assert(self.is_node(self.order[k]));
        }
        assert(r.in_order() =~= self.in_order());
    }

    /// `l`, as a link of the tree, stands for the positions `lo <= k < hi`.
    pub open spec fn covers(self, l: Link, lo: int, hi: int) -> bool {
        match l {
            Link::Real(i) => self.is_node(i) && self.m(i).lo == lo && self.m(i).hi == hi,
            Link::Nil => lo == hi,
        }
    }
}

impl<T: Ord> Model<T> {
    /// The values are in non-decreasing order.
    pub open spec fn sorted(self) -> bool {
        forall|a: int, b: int|
            0 <= a < b < self.size() ==> le(#[trigger] self.value_at(a), #[trigger] self.value_at(b))
    }

    /// Every position before `lo` holds a value not above `e`, and every
    /// position from `hi` on holds a value above `e`.
    pub open spec fn slot(self, e: T, lo: int, hi: int) -> bool {
        &&& 0 <= lo <= hi <= self.size()
        &&& forall|k: int| 0 <= k < lo ==> le(#[trigger] self.value_at(k), e)
        &&& forall|k: int| hi <= k < self.size() ==> lt(e, #[trigger] self.value_at(k))
    }

    /// The table is a red-black tree but for the colour of `x`: `x` may be
    /// a red root, or a red child of a red parent.
    pub open spec fn red_at(self, x: usize) -> bool {
        &&& self.structure_ok()
        &&& self.sentinel_black()
        &&& self.black_balanced()
        &&& self.sorted()
        &&& self.is_node(x)
        &&& self.node(x).color == Color::Red
        &&& self.rr_ok(x)
        &&& (self.root_black() || self.root == Link::Real(x))
        &&& forall|i: usize| self.is_node(i) ==> #[trigger] self.rr_ok_except(i, Link::Real(x))
    }

    /// The side on which `x` hangs below `pi`.
    pub open spec fn side_of(self, x: Link, pi: usize) -> Side {
        if self.node(pi).left == x {
            Side::Left
        } else {
            Side::Right
        }
    }

    /// Below `pi`, the paths through `x` pass one black node fewer than
    /// the paths through the other child, which pass as many as `meta`
    /// records for `pi`.
    pub open spec fn short_at(self, x: Link, pi: usize) -> bool {
        let s = self.side_of(x, pi);
        &&& self.node(pi).child(s) == x
        &&& self.black_count(x) + 1 == self.m(pi).bh
        &&& self.black_count(self.node(pi).child(s.flip())) == self.m(pi).bh
    }

    /// The table is a red-black tree but for one black node missing on the
    /// paths through `x`, the child of `p`: the state in which the restoring
    /// loop of a deletion finds and leaves the tree.
    pub open spec fn deficit(self, x: Link, p: Link) -> bool {
        &&& self.structure_ok()
        &&& self.sentinel_black()
        &&& self.sorted()
        &&& (x matches Link::Real(xi) ==> self.is_node(xi) && self.node(xi).parent == p)
        &&& match p {
            Link::Real(pi) => self.is_node(pi) && self.short_at(x, pi),
            Link::Nil => self.root == x,
        }
        &&& forall|i: usize| self.is_node(i) && Link::Real(i) != p ==> #[trigger] self.bh_ok(i)
        &&& forall|i: usize| self.is_node(i) ==> #[trigger] self.rr_ok_except(i, x)
        &&& (self.root_black() || self.root == x)
    }

    /// The table is a red-black tree over a sorted sequence of values.
    pub open spec fn wf(self) -> bool {
        &&& self.structure_ok()
        &&& self.sentinel_black()
        &&& self.root_black()
        &&& self.no_red_red()
        &&& self.black_balanced()
        &&& self.sorted()
    }
}

} // verus!
