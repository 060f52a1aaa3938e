//! The two rotations.

use vstd::prelude::*;
use crate::rbtree::{Link, Node, RBTree};
use crate::rbtree::model::{Meta, Model, Side};

verus! {

impl<T> Model<T> {
    /// The table after the right child of `x` has taken the place of `x`,
    /// with `x` as its left child.
    pub open spec fn rotate_left(self, x: usize) -> Model<T> {
        let y = self.node(x).right.index();
        let b = self.node(y).left;
        let xp = self.node(x).parent;
        let m1 = self.set_right(x, b);
        let m2 = match b {
            Link::Real(bi) => m1.set_parent(bi, Link::Real(x)),
            Link::Nil => m1,
        };
        let m3 = m2.set_parent(y, xp);
        let m4 = match xp {
            Link::Nil => m3.set_root(Link::Real(y)),
            Link::Real(pi) => if m3.node(pi).left == Link::Real(x) {
                m3.set_left(pi, Link::Real(y))
            } else {
                m3.set_right(pi, Link::Real(y))
            },
        };
        let m5 = m4.set_left(y, Link::Real(x)).set_parent(x, Link::Real(y));
        m5.set_meta(x, Meta { hi: self.m(y).rank, ..self.m(x) }).set_meta(
            y,
            Meta { lo: self.m(x).lo, ..self.m(y) },
        )
    }

    /// What a rotation leaves as it was: the shape of the table, the value
    /// and colour of every node, its position and its black height.
    pub open spec fn same_content(self, other: Model<T>) -> bool {
        &&& self.nodes.len() == other.nodes.len()
        &&& self.meta.len() == other.meta.len()
        &&& self.order == other.order
        &&& self.free == other.free
        &&& self.nil == other.nil
        &&& forall|i: usize|
            (i as int) < self.nodes.len() ==> {
                &&& (#[trigger] self.node(i)).value == other.node(i).value
                &&& self.node(i).color == other.node(i).color
            }
        &&& forall|i: usize|
            (i as int) < self.nodes.len() ==> {
                &&& (#[trigger] self.m(i)).live == other.m(i).live
                &&& self.m(i).rank == other.m(i).rank
                &&& self.m(i).bh == other.m(i).bh
            }
    }

    /// The table after the left child of `x` has taken the place of `x`,
    /// with `x` as its right child.
    pub open spec fn rotate_right(self, x: usize) -> Model<T> {
        let y = self.node(x).left.index();
        let b = self.node(y).right;
        let xp = self.node(x).parent;
        let m1 = self.set_left(x, b);
        let m2 = match b {
            Link::Real(bi) => m1.set_parent(bi, Link::Real(x)),
            Link::Nil => m1,
        };
        let m3 = m2.set_parent(y, xp);
        let m4 = match xp {
            Link::Nil => m3.set_root(Link::Real(y)),
            Link::Real(pi) => if m3.node(pi).right == Link::Real(x) {
                m3.set_right(pi, Link::Real(y))
            } else {
                m3.set_left(pi, Link::Real(y))
            },
        };
        let m5 = m4.set_right(y, Link::Real(x)).set_parent(x, Link::Real(y));
        m5.set_meta(x, Meta { lo: self.m(y).rank + 1, ..self.m(x) }).set_meta(
            y,
            Meta { hi: self.m(x).hi, ..self.m(y) },
        )
    }

    /// The links of the table after a left rotation at `x`, node by node.
    pub proof fn lemma_rotate_left_links(self, x: usize)
        requires
            self.structure_ok(),
            self.is_node(x),
            self.node(x).right != Link::Nil,
        ensures
            ({
                let y = self.node(x).right.index();
                let b = self.node(y).left;
                let xp = self.node(x).parent;
                let r = self.rotate_left(x);
                &&& x != y
                &&& self.is_node(y)
                &&& b != Link::Real(x) && b != Link::Real(y)
                &&& xp != Link::Real(x) && xp != Link::Real(y) && (xp != Link::Nil ==> xp != b)
                &&& r.nodes.len() == self.nodes.len()
                &&& r.meta.len() == self.meta.len()
                &&& r.order == self.order
                &&& r.free == self.free
                &&& r.nil == self.nil
                &&& r.root == (if xp == Link::Nil { Link::Real(y) } else { self.root })
                &&& r.node(x) == (Node { right: b, parent: Link::Real(y), ..self.node(x) })
                &&& r.node(y) == (Node { left: Link::Real(x), parent: xp, ..self.node(y) })
                &&& r.m(x) == (Meta { hi: self.m(y).rank, ..self.m(x) })
                &&& r.m(y) == (Meta { lo: self.m(x).lo, ..self.m(y) })
                &&& (b matches Link::Real(bi) ==> r.node(bi) == (Node {
                    parent: Link::Real(x),
                    ..self.node(bi)
                }))
                &&& (xp matches Link::Real(pi) ==> r.node(pi) == (if self.node(pi).left
                    == Link::Real(x) {
                    Node { left: Link::Real(y), ..self.node(pi) }
                } else {
                    Node { right: Link::Real(y), ..self.node(pi) }
                }))
                &&& forall|i: usize|
                    (i as int) < self.nodes.len() && i != x && i != y ==> #[trigger] r.m(i)
                        == self.m(i)
                &&& forall|i: usize|
                    (i as int) < self.nodes.len() && i != x && i != y && Link::Real(i) != b
                        && Link::Real(i) != xp ==> #[trigger] r.node(i) == self.node(i)
            }),
    {
        let y = self.node(x).right.index();
        let b = self.node(y).left;
        let xp = self.node(x).parent;
        assert(self.node_ok(x));
        assert(self.node_ok(y));
        if let Link::Real(bi) = b {
            assert(self.node_ok(bi));
        }
        if let Link::Real(pi) = xp {
            assert(self.node_ok(pi));
        }
    }

    /// A left rotation keeps the table one tree over the same order.
    pub proof fn lemma_rotate_left(self, x: usize)
        requires
            self.structure_ok(),
            self.is_node(x),
            self.node(x).right != Link::Nil,
        ensures
            self.rotate_left(x).structure_ok(),
            self.rotate_left(x).same_content(self),
    {
        let y = self.node(x).right.index();
        let b = self.node(y).left;
        let xp = self.node(x).parent;
        let r = self.rotate_left(x);
        self.lemma_rotate_left_links(x);
        assert(self.node_ok(x));
        assert(self.node_ok(y));
        if let Link::Real(bi) = b {
            assert(self.node_ok(bi));
        }
        if let Link::Real(pi) = xp {
            assert(self.node_ok(pi));
        }
        assert forall|i: usize| r.is_node(i) implies #[trigger] r.node_ok(i) by {
            assert(self.is_node(i));
            assert(self.node_ok(i));
            assert(r.m(i).rank == self.m(i).rank);
            if i == x {
                assert(r.node_ok(i));
            } else if i == y {
                assert(r.node_ok(i));
            } else if Link::Real(i) == b {
                assert(r.node_ok(i));
            } else if Link::Real(i) == xp {
                assert(r.node_ok(i));
            } else {
                assert(r.node(i) == self.node(i));
                assert(r.left_ok(i));
                assert(r.right_ok(i));
                assert(r.parent_ok(i));
            }
        }
        assert(r.order_ok()) by {
            assert forall|k: int| 0 <= k < r.order.len() implies r.is_node(#[trigger] r.order[k])
                && r.m(r.order[k]).rank == k by {
                assert(self.is_node(self.order[k]));
            }
        }
        assert(r.root_ok());
        assert(r.free_ok()) by {
            assert forall|j: int| 0 <= j < r.free.len() implies (#[trigger] r.free[j] as int)
                < r.nodes.len() && !r.m(r.free[j]).live by {
                assert((self.free[j] as int) < self.nodes.len());
            }
        }
        assert(r.same_content(self));
    }

    /// The links of the table after a right rotation at `x`, node by node.
    pub proof fn lemma_rotate_right_links(self, x: usize)
        requires
            self.structure_ok(),
            self.is_node(x),
            self.node(x).left != Link::Nil,
        ensures
            ({
                let y = self.node(x).left.index();
                let b = self.node(y).right;
                let xp = self.node(x).parent;
                let r = self.rotate_right(x);
                &&& x != y
                &&& self.is_node(y)
                &&& b != Link::Real(x) && b != Link::Real(y)
                &&& xp != Link::Real(x) && xp != Link::Real(y) && (xp != Link::Nil ==> xp != b)
                &&& r.nodes.len() == self.nodes.len()
                &&& r.meta.len() == self.meta.len()
                &&& r.order == self.order
                &&& r.free == self.free
                &&& r.nil == self.nil
                &&& r.root == (if xp == Link::Nil { Link::Real(y) } else { self.root })
                &&& r.node(x) == (Node { left: b, parent: Link::Real(y), ..self.node(x) })
                &&& r.node(y) == (Node { right: Link::Real(x), parent: xp, ..self.node(y) })
                &&& r.m(x) == (Meta { lo: self.m(y).rank + 1, ..self.m(x) })
                &&& r.m(y) == (Meta { hi: self.m(x).hi, ..self.m(y) })
                &&& (b matches Link::Real(bi) ==> r.node(bi) == (Node {
                    parent: Link::Real(x),
                    ..self.node(bi)
                }))
                &&& (xp matches Link::Real(pi) ==> r.node(pi) == (if self.node(pi).right
                    == Link::Real(x) {
                    Node { right: Link::Real(y), ..self.node(pi) }
                } else {
                    Node { left: Link::Real(y), ..self.node(pi) }
                }))
                &&& forall|i: usize|
                    (i as int) < self.nodes.len() && i != x && i != y ==> #[trigger] r.m(i)
                        == self.m(i)
                &&& forall|i: usize|
                    (i as int) < self.nodes.len() && i != x && i != y && Link::Real(i) != b
                        && Link::Real(i) != xp ==> #[trigger] r.node(i) == self.node(i)
            }),
    {
        let y = self.node(x).left.index();
        let b = self.node(y).right;
        let xp = self.node(x).parent;
        assert(self.node_ok(x));
        assert(self.node_ok(y));
        if let Link::Real(bi) = b {
            assert(self.node_ok(bi));
        }
        if let Link::Real(pi) = xp {
            assert(self.node_ok(pi));
        }
    }

    /// A right rotation keeps the table one tree over the same order.
    pub proof fn lemma_rotate_right(self, x: usize)
        requires
            self.structure_ok(),
            self.is_node(x),
            self.node(x).left != Link::Nil,
        ensures
            self.rotate_right(x).structure_ok(),
            self.rotate_right(x).same_content(self),
    {
        let y = self.node(x).left.index();
        let b = self.node(y).right;
        let xp = self.node(x).parent;
        let r = self.rotate_right(x);
        self.lemma_rotate_right_links(x);
        assert(self.node_ok(x));
        assert(self.node_ok(y));
        if let Link::Real(bi) = b {
            assert(self.node_ok(bi));
        }
        if let Link::Real(pi) = xp {
            assert(self.node_ok(pi));
        }
        assert forall|i: usize| r.is_node(i) implies #[trigger] r.node_ok(i) by {
            assert(self.is_node(i));
            assert(self.node_ok(i));
            assert(r.m(i).rank == self.m(i).rank);
            if i == x {
                assert(r.node_ok(i));
            } else if i == y {
                assert(r.node_ok(i));
            } else if Link::Real(i) == b {
                assert(r.node_ok(i));
            } else if Link::Real(i) == xp {
                assert(r.node_ok(i));
            } else {
                assert(r.node(i) == self.node(i));
                assert(r.left_ok(i));
                assert(r.right_ok(i));
                assert(r.parent_ok(i));
            }
        }
        assert(r.order_ok()) by {
            assert forall|k: int| 0 <= k < r.order.len() implies r.is_node(#[trigger] r.order[k])
                && r.m(r.order[k]).rank == k by {
                assert(self.is_node(self.order[k]));
            }
        }
        assert(r.root_ok());
        assert(r.free_ok()) by {
            assert forall|j: int| 0 <= j < r.free.len() implies (#[trigger] r.free[j] as int)
                < r.nodes.len() && !r.m(r.free[j]).live by {
                assert((self.free[j] as int) < self.nodes.len());
            }
        }
        assert(r.same_content(self));
    }
}

impl<T> Model<T> {
    /// The table after `x` has moved down to side `s` and its child on the
    /// other side has taken its place.
    pub open spec fn rotate(self, x: usize, s: Side) -> Model<T> {
        match s {
            Side::Left => self.rotate_left(x),
            Side::Right => self.rotate_right(x),
        }
    }

    /// `r` is the table `self` rotated at `x` towards side `s`: the three
    /// parent and child pairs that a rotation relinks, and nothing else.
    pub open spec fn rotated(self, r: Model<T>, x: usize, s: Side) -> bool {
        let y = self.node(x).child(s.flip()).index();
        let b = self.node(y).child(s);
        let xp = self.node(x).parent;
        &&& self.is_node(y)
        &&& x != y
        &&& b != Link::Real(x) && b != Link::Real(y)
        &&& xp != Link::Real(x) && xp != Link::Real(y) && (xp != Link::Nil ==> xp != b)
        &&& r.structure_ok()
        &&& r.same_content(self)
        &&& r.root == (if xp == Link::Nil { Link::Real(y) } else { self.root })
        &&& r.m(y).lo == self.m(x).lo
        &&& r.m(y).hi == self.m(x).hi
        &&& forall|i: usize|
            (i as int) < self.nodes.len() && i != x && i != y ==> #[trigger] r.m(i) == self.m(i)
        &&& r.node(x).child(s) == self.node(x).child(s)
        &&& r.node(x).child(s.flip()) == b
        &&& r.node(x).parent == Link::Real(y)
        &&& r.node(y).child(s) == Link::Real(x)
        &&& r.node(y).child(s.flip()) == self.node(y).child(s.flip())
        &&& r.node(y).parent == xp
        &&& (b matches Link::Real(bi) ==> {
            &&& r.node(bi).left == self.node(bi).left
            &&& r.node(bi).right == self.node(bi).right
            &&& r.node(bi).parent == Link::Real(x)
        })
        &&& (xp matches Link::Real(pi) ==> {
            &&& r.node(pi).parent == self.node(pi).parent
            &&& r.node(pi).left == (if self.node(pi).left == Link::Real(x) {
                Link::Real(y)
            } else {
                self.node(pi).left
            })
            &&& r.node(pi).right == (if self.node(pi).right == Link::Real(x) {
                Link::Real(y)
            } else {
                self.node(pi).right
            })
        })
        &&& forall|i: usize|
            (i as int) < self.nodes.len() && i != x && i != y && Link::Real(i) != b && Link::Real(
                i,
            ) != xp ==> #[trigger] r.node(i) == self.node(i)
    }

    /// A rotation relinks three pairs of nodes and keeps the table one tree
    /// over the same order of values.
    pub proof fn lemma_rotate(self, x: usize, s: Side)
        requires
            self.structure_ok(),
            self.is_node(x),
            self.node(x).child(s.flip()) != Link::Nil,
        ensures
            self.rotated(self.rotate(x, s), x, s),
            self.rotate(x, s).in_order() == self.in_order(),
    {
        let r = self.rotate(x, s);
        assert(self.node_ok(x));
        if let Link::Real(pi) = self.node(x).parent {
            assert(self.node_ok(pi));
        }
        match s {
            Side::Left => {
                self.lemma_rotate_left_links(x);
                self.lemma_rotate_left(x);
            },
            Side::Right => {
                self.lemma_rotate_right_links(x);
                self.lemma_rotate_right(x);
            },
        }
        r.lemma_same_content_values(self);
    }

    /// Tables with the same content hold the same values in the same order.
    pub proof fn lemma_same_content_values(self, other: Model<T>)
        requires
            self.same_content(other),
            other.order_ok(),
        ensures
            self.in_order() == other.in_order(),
            forall|k: int| 0 <= k < self.size() ==> #[trigger] self.value_at(k) == other.value_at(k),
    {
        assert forall|k: int| 0 <= k < self.size() implies #[trigger] self.value_at(k)
            == other.value_at(k) by {
            assert(other.is_node(other.order[k]));
        }
        assert(self.in_order() =~= other.in_order());
    }
}

impl<T: Ord + Copy> RBTree<T> {
    /// Promotes the right child of `x` to the place of `x`, with `x` as its
    /// left child. The values keep their order; the colour rules may be
    /// broken.
    pub(crate) fn rotate_left(&mut self, x: usize)
        requires
            old(self).model().structure_ok(),
            old(self).model().is_node(x),
            old(self).model().node(x).right != Link::Nil,
        ensures
            final(self).model() == old(self).model().rotate_left(x),
            final(self).model().structure_ok(),
            final(self)@ == old(self)@,
    {
        let ghost m = self.model();
        proof {
            assert(m.node_ok(x));
            assert(m.node_ok(m.node(x).right.index()));
            m.lemma_rotate_left(x);
            m.rotate_left(x).lemma_same_content_values(m);
        }
        let y = self.nodes[x].right.into_node();
        let b = self.nodes[y].left;
        let xp = self.nodes[x].parent;
        self.set_right(x, b);
        if let Link::Real(bi) = b {
            self.set_parent(bi, Link::Real(x));
        }
        self.set_parent(y, xp);
        match xp {
            Link::Nil => {
                self.set_root(Link::Real(y));
            },
            Link::Real(pi) => {
                if self.nodes[pi].left == Link::Real(x) {
                    self.set_left(pi, Link::Real(y));
                } else {
                    self.set_right(pi, Link::Real(y));
                }
            },
        }
        self.set_left(y, Link::Real(x));
        self.set_parent(x, Link::Real(y));
        self.set_meta(Ghost(x), Ghost(Meta { hi: m.m(y).rank, ..m.m(x) }));
        self.set_meta(Ghost(y), Ghost(Meta { lo: m.m(x).lo, ..m.m(y) }));
    }

    /// Promotes the left child of `x` to the place of `x`, with `x` as its
    /// right child. The values keep their order; the colour rules may be
    /// broken.
    pub(crate) fn rotate_right(&mut self, x: usize)
        requires
            old(self).model().structure_ok(),
            old(self).model().is_node(x),
            old(self).model().node(x).left != Link::Nil,
        ensures
            final(self).model() == old(self).model().rotate_right(x),
            final(self).model().structure_ok(),
            final(self)@ == old(self)@,
    {
        let ghost m = self.model();
        proof {
            assert(m.node_ok(x));
            assert(m.node_ok(m.node(x).left.index()));
            m.lemma_rotate_right(x);
            m.rotate_right(x).lemma_same_content_values(m);
        }
        let y = self.nodes[x].left.into_node();
        let b = self.nodes[y].right;
        let xp = self.nodes[x].parent;
        self.set_left(x, b);
        if let Link::Real(bi) = b {
            self.set_parent(bi, Link::Real(x));
        }
        self.set_parent(y, xp);
        match xp {
            Link::Nil => {
                self.set_root(Link::Real(y));
            },
            Link::Real(pi) => {
                if self.nodes[pi].right == Link::Real(x) {
                    self.set_right(pi, Link::Real(y));
                } else {
                    self.set_left(pi, Link::Real(y));
                }
            },
        }
        self.set_right(y, Link::Real(x));
        self.set_parent(x, Link::Real(y));
        self.set_meta(Ghost(x), Ghost(Meta { lo: m.m(y).rank + 1, ..m.m(x) }));
        self.set_meta(Ghost(y), Ghost(Meta { hi: m.m(x).hi, ..m.m(y) }));
    }

    /// Moves `x` down to side `s`; its child on the other side takes its
    /// place.
    pub(crate) fn rotate(&mut self, x: usize, s: Side)
        requires
            old(self).model().structure_ok(),
            old(self).model().is_node(x),
            old(self).model().node(x).child(s.flip()) != Link::Nil,
        ensures
            final(self).model() == old(self).model().rotate(x, s),
            final(self).model().structure_ok(),
            final(self)@ == old(self)@,
    {
        match s {
            Side::Left => self.rotate_left(x),
            Side::Right => self.rotate_right(x),
        }
    }
}

} // verus!
