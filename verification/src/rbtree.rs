//! A red-black tree whose nodes live in an index arena.

use vstd::prelude::*;
use crate::order::total_order;
use crate::rbtree::model::{Meta, Model, Side};

pub mod model;
pub mod rotate;
pub mod search;
pub mod insert;
pub mod delete;
pub mod walk;
pub mod laws;

verus! {

/// The colour tag of a node.
#[derive(Debug, PartialEq, Eq, Clone, Copy, Structural)]
pub enum Color {
    Red,
    Black,
}

/// A tagged link: either the index of a real node, or the sentinel.
#[derive(Debug, PartialEq, Eq, Clone, Copy, Structural)]
pub enum Link {
    Real(usize),
    Nil,
}

/// A real node of the tree.
#[derive(Debug)]
pub struct Node<T> {
    pub value: T,
    pub color: Color,
    pub left: Link,
    pub right: Link,
    pub parent: Link,
}

/// The sentinel that stands for every absent child and for the root's parent.
#[derive(Debug, Clone, Copy)]
pub struct NilNode {
    pub color: Color,
}

/// A self-balancing ordered container that admits equal values.
pub struct RBTree<T> {
    nodes: Vec<Node<T>>,
    free: Vec<usize>,
    root: Link,
    nil: NilNode,
    order: Ghost<Seq<usize>>,
    meta: Ghost<Seq<Meta>>,
}

impl Link {
    /// Whether the link is the sentinel.
    pub fn is_nil(&self) -> (r: bool)
        ensures
            r == (*self == Link::Nil),
    {
        match self {
            Link::Real(_) => false,
            Link::Nil => true,
        }
    }

    /// The index of the node behind a real link.
    pub fn into_node(self) -> (i: usize)
        requires
            self != Link::Nil,
        ensures
            self == Link::Real(i),
    {
        match self {
            Link::Real(i) => i,
            Link::Nil => unreached(),
        }
    }
}

impl<T: Copy> Clone for Node<T> {
    /// A copy of the node.
    fn clone(&self) -> (r: Self)
        ensures
            r == *self,
    {
        *self
    }
}

impl<T: Copy> Copy for Node<T> {

}

impl NilNode {
    /// A fresh sentinel, black.
    pub fn new() -> (nil: NilNode)
        ensures
            nil.color == Color::Black,
    {
        NilNode { color: Color::Black }
    }
}

impl<T: Ord + Copy> RBTree<T> {
    /// The model of this tree.
    pub closed spec fn model(&self) -> Model<T> {
        Model {
            nodes: self.nodes@,
            root: self.root,
            nil: self.nil,
            free: self.free@,
            order: self.order@,
            meta: self.meta@,
        }
    }

    /// The tree is a valid red-black tree over a totally ordered type.
    pub open spec fn wf(&self) -> bool {
        total_order::<T>() && self.model().wf()
    }

    /// An empty tree.
    pub fn new() -> (tree: Self)
        requires
            total_order::<T>(),
        ensures
            tree.wf(),
            tree@ == Seq::<T>::empty(),
            tree.model().root == Link::Nil,
    {
        let tree = RBTree {
            nodes: Vec::new(),
            free: Vec::new(),
            root: Link::Nil,
            nil: NilNode::new(),
            order: Ghost(Seq::empty()),
            meta: Ghost(Seq::empty()),
        };
        assert(tree.model().in_order() =~= Seq::<T>::empty());
        tree
    }

    /// The link to the root: `Nil` exactly when the tree is empty.
    pub fn root(&self) -> (l: Link)
        requires
            self.wf(),
        ensures
            l == self.model().root,
            (l == Link::Nil) == (self@.len() == 0),
            l matches Link::Real(i) ==> self.model().is_node(i),
    {
        proof {
            if let Link::Real(i) = self.root {
                assert(self.model().node_ok(i));
            }
        }
        self.root
    }

    /// The sentinel link.
    pub fn nil(&self) -> (l: Link)
        ensures
            l == Link::Nil,
    {
        Link::Nil
    }

    /// The node in slot `i`.
    pub fn node(&self, i: usize) -> (n: &Node<T>)
        requires
            self.model().is_node(i),
        ensures
            *n == self.model().node(i),
    {
        &self.nodes[i]
    }

    /// The colour behind a link; the sentinel answers for `Nil`.
    pub fn color(&self, l: Link) -> (c: Color)
        requires
            l matches Link::Real(i) ==> (i as int) < self.model().nodes.len(),
        ensures
            c == self.model().color_of(l),
    {
        match l {
            Link::Real(i) => self.nodes[i].color,
            Link::Nil => self.nil.color,
        }
    }

    /// The child link of node `i` on side `s`.
    pub(crate) fn child(&self, i: usize, s: Side) -> (l: Link)
        requires
            (i as int) < self.model().nodes.len(),
        ensures
            l == self.model().node(i).child(s),
    {
        match s {
            Side::Left => self.nodes[i].left,
            Side::Right => self.nodes[i].right,
        }
    }

    /// The parent link of node `i`.
    pub(crate) fn parent(&self, i: usize) -> (l: Link)
        requires
            (i as int) < self.model().nodes.len(),
        ensures
            l == self.model().node(i).parent,
    {
        self.nodes[i].parent
    }

    /// Sets the left link of node `i`.
    pub(crate) fn set_left(&mut self, i: usize, l: Link)
        requires
            i < old(self).model().nodes.len(),
        ensures
            final(self).model() == old(self).model().set_left(i, l),
    {
        self.nodes[i].left = l;
    }

    /// Sets the right link of node `i`.
    pub(crate) fn set_right(&mut self, i: usize, l: Link)
        requires
            i < old(self).model().nodes.len(),
        ensures
            final(self).model() == old(self).model().set_right(i, l),
    {
        self.nodes[i].right = l;
    }

    /// Sets the parent link of node `i`.
    pub(crate) fn set_parent(&mut self, i: usize, l: Link)
        requires
            i < old(self).model().nodes.len(),
        ensures
            final(self).model() == old(self).model().set_parent(i, l),
    {
        self.nodes[i].parent = l;
    }

    /// Sets the colour of node `i`.
    pub(crate) fn set_color(&mut self, i: usize, c: Color)
        requires
            i < old(self).model().nodes.len(),
        ensures
            final(self).model() == old(self).model().set_color(i, c),
    {
        self.nodes[i].color = c;
    }

    /// Sets the value of node `i`.
    pub(crate) fn set_value(&mut self, i: usize, v: T)
        requires
            i < old(self).model().nodes.len(),
        ensures
            final(self).model() == old(self).model().set_value(i, v),
    {
        self.nodes[i].value = v;
    }

    /// Sets the child link of node `i` on side `s`.
    pub(crate) fn set_child(&mut self, i: usize, s: Side, l: Link)
        requires
            i < old(self).model().nodes.len(),
        ensures
            final(self).model() == old(self).model().set_child(i, s, l),
    {
        match s {
            Side::Left => self.set_left(i, l),
            Side::Right => self.set_right(i, l),
        }
    }

    /// Sets the record of slot `i`.
    pub(crate) fn set_meta(&mut self, Ghost(i): Ghost<usize>, Ghost(m): Ghost<Meta>)
        ensures
            final(self).model() == old(self).model().set_meta(i, m),
    {
        self.meta = Ghost(self.meta@.update(i as int, m));
    }

    /// Sets the root link.
    pub(crate) fn set_root(&mut self, l: Link)
        ensures
            final(self).model() == old(self).model().set_root(l),
    {
        self.root = l;
    }
}

impl<T: Ord + Copy> View for RBTree<T> {
    type V = Seq<T>;

    /// The values of the tree in ascending order, equal values included.
    open spec fn view(&self) -> Seq<T> {
        self.model().in_order()
    }
}

} // verus!
