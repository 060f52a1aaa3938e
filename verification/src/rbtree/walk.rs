//! Read-only walks over the tree.

use vstd::prelude::*;
use vstd::arithmetic::power2::{lemma2_to64, lemma2_to64_rest, lemma_pow2_strictly_increases, lemma_pow2_unfold, pow2};
use crate::rbtree::{Color, Link, RBTree};
use crate::rbtree::model::Model;

verus! {

impl<T> Model<T> {
    /// The number of nodes on the longest path from `l` down to the
    /// sentinel.
    pub open spec fn height(self, l: Link) -> nat
        decreases self.span(l),
        when self.structure_ok() && self.link_ok(l)
    {
        match l {
            Link::Nil => 0,
            Link::Real(i) => {
                proof {
                    assert(self.node_ok(i));
                }
                let a = self.height(self.node(i).left);
                let b = self.height(self.node(i).right);
                1 + if a > b {
                    a
                } else {
                    b
                }
            },
        }
    }

    /// The number of nodes on the shortest path from `l` down to the
    /// sentinel.
    pub open spec fn min_height(self, l: Link) -> nat
        decreases self.span(l),
        when self.structure_ok() && self.link_ok(l)
    {
        match l {
            Link::Nil => 0,
            Link::Real(i) => {
                proof {
                    assert(self.node_ok(i));
                }
                let a = self.min_height(self.node(i).left);
                let b = self.min_height(self.node(i).right);
                1 + if a < b {
                    a
                } else {
                    b
                }
            },
        }
    }

    /// The values below `l` as a walk meets them that visits the left
    /// subtree of a node, then the node, then its right subtree, and turns
    /// back at the sentinel.
    pub open spec fn flatten(self, l: Link) -> Seq<T>
        decreases self.span(l),
        when self.structure_ok() && self.link_ok(l)
    {
        match l {
            Link::Nil => Seq::empty(),
            Link::Real(i) => {
                proof {
                    assert(self.node_ok(i));
                }
                self.flatten(self.node(i).left).push(self.node(i).value) + self.flatten(
                    self.node(i).right,
                )
            },
        }
    }

    /// The walk below a link meets the values at the positions that the
    /// subtree covers, in their order.
    pub proof fn lemma_flatten(self, l: Link, lo: int, hi: int)
        requires
            self.structure_ok(),
            self.covers(l, lo, hi),
            0 <= lo <= hi <= self.size(),
        ensures
            self.flatten(l) == self.in_order().subrange(lo, hi),
        decreases hi - lo,
    {
        match l {
            Link::Nil => {
                assert(self.in_order().subrange(lo, hi) =~= Seq::<T>::empty());
            },
            Link::Real(i) => {
                assert(self.node_ok(i));
                let r = self.m(i).rank;
                self.lemma_flatten(self.node(i).left, lo, r);
                self.lemma_flatten(self.node(i).right, r + 1, hi);
                assert(self.in_order()[r] == self.node(i).value);
                assert(self.in_order().subrange(lo, r).push(self.node(i).value)
                    + self.in_order().subrange(r + 1, hi) =~= self.in_order().subrange(lo, hi));
            },
        }
    }

    /// In a red-black tree, a subtree whose paths pass `b` black nodes is
    /// at most `2 * b + 1` nodes high, at least `b` nodes high on its
    /// shortest path, and holds at least `2^b - 1` nodes.
    pub proof fn lemma_heights(self, l: Link)
        requires
            self.structure_ok(),
            self.sentinel_black(),
            self.no_red_red(),
            self.black_balanced(),
            self.link_ok(l),
        ensures
            self.black_count(l) >= 0,
            self.height(l) <= 2 * self.black_count(l) + (if self.color_of(l) == Color::Red {
                1int
            } else {
                0int
            }),
            self.min_height(l) >= self.black_count(l),
            pow2(self.black_count(l) as nat) <= self.span(l) + 1,
        decreases self.span(l),
    {
        lemma2_to64();
        match l {
            Link::Nil => {},
            Link::Real(i) => {
                assert(self.node_ok(i));
                assert(self.bh_ok(i));
                assert(self.rr_ok(i));
                self.lemma_heights(self.node(i).left);
                self.lemma_heights(self.node(i).right);
                let b = self.m(i).bh as nat;
                lemma_pow2_unfold(b + 1);
                assert(self.span(l) + 1 == (self.span(self.node(i).left) + 1) + (self.span(
                    self.node(i).right,
                ) + 1));
            },
        }
    }

    /// The paths of a red-black tree pass at most 64 black nodes.
    pub proof fn lemma_black_count_small(self, l: Link)
        requires
            self.structure_ok(),
            self.sentinel_black(),
            self.no_red_red(),
            self.black_balanced(),
            self.link_ok(l),
            self.size() <= usize::MAX,
        ensures
            0 <= self.black_count(l) <= 64,
            self.height(l) <= 129,
            self.min_height(l) <= self.height(l),
    {
        self.lemma_heights(l);
        self.lemma_min_below_max(l);
        if let Link::Real(i) = l {
            assert(self.node_ok(i));
        }
        if self.black_count(l) > 64 {
            lemma_pow2_strictly_increases(64, self.black_count(l) as nat);
            lemma2_to64_rest();
        }
    }

    /// The shortest path is no longer than the longest.
    pub proof fn lemma_min_below_max(self, l: Link)
        requires
            self.structure_ok(),
            self.link_ok(l),
        ensures
            self.min_height(l) <= self.height(l),
        decreases self.span(l),
    {
        match l {
            Link::Nil => {},
            Link::Real(i) => {
                assert(self.node_ok(i));
                self.lemma_min_below_max(self.node(i).left);
                self.lemma_min_below_max(self.node(i).right);
            },
        }
    }
}

impl<T: Ord + Copy> RBTree<T> {
    /// Appends the values below `link` to `out` in ascending order: left
    /// subtree, value, right subtree.
    fn in_order_from(&self, link: Link, out: &mut Vec<T>, Ghost(lo): Ghost<int>, Ghost(hi): Ghost<int>)
        requires
            self.model().structure_ok(),
            self.model().covers(link, lo, hi),
            0 <= lo <= hi <= self.model().size(),
            old(out)@ == self.model().in_order().subrange(0, lo),
        ensures
            final(out)@ == self.model().in_order().subrange(0, hi),
        decreases hi - lo,
    {
        let ghost m = self.model();
        match link {
            Link::Nil => {},
            Link::Real(i) => {
                proof {
                    assert(m.node_ok(i));
                }
                self.in_order_from(self.nodes[i].left, out, Ghost(lo), Ghost(m.m(i).rank));
                out.push(self.nodes[i].value);
                proof {
                    assert(out@ =~= m.in_order().subrange(0, m.m(i).rank + 1));
                }
                self.in_order_from(self.nodes[i].right, out, Ghost(m.m(i).rank + 1), Ghost(hi));
            },
        }
    }

    /// The number of nodes on the longest path from `node` down to the
    /// sentinel.
    pub fn height(&self, node: usize) -> (h: u32)
        requires
            self.wf(),
            self.model().is_node(node),
        ensures
            h == self.model().height(Link::Real(node)),
        decreases self.model().span(Link::Real(node)),
    {
        let ghost m = self.model();
        proof {
            assert(self.nodes@.len() == self.nodes.len());
            reveal_with_fuel(Model::height, 2);
            assert(m.node_ok(node));
            m.lemma_black_count_small(Link::Real(node));
        }
        let left = self.nodes[node].left;
        let right = self.nodes[node].right;
        if left.is_nil() && right.is_nil() {
            return 1;
        }
        let left_height = if let Link::Real(l) = left {
            self.height(l)
        } else {
            0
        };
        let right_height = if let Link::Real(r) = right {
            self.height(r)
        } else {
            0
        };
        if left_height > right_height {
            left_height + 1
        } else {
            right_height + 1
        }
    }

    /// The number of nodes on the shortest path from `node` down to the
    /// sentinel.
    pub fn min_height(&self, node: usize) -> (h: u32)
        requires
            self.wf(),
            self.model().is_node(node),
        ensures
            h == self.model().min_height(Link::Real(node)),
        decreases self.model().span(Link::Real(node)),
    {
        let ghost m = self.model();
        proof {
            assert(self.nodes@.len() == self.nodes.len());
            reveal_with_fuel(Model::min_height, 2);
            assert(m.node_ok(node));
            m.lemma_black_count_small(Link::Real(node));
        }
        let left = self.nodes[node].left;
        let right = self.nodes[node].right;
        if left.is_nil() && right.is_nil() {
            return 1;
        }
        let left_height = if let Link::Real(l) = left {
            self.min_height(l)
        } else {
            0
        };
        let right_height = if let Link::Real(r) = right {
            self.min_height(r)
        } else {
            0
        };
        if left_height < right_height {
            left_height + 1
        } else {
            right_height + 1
        }
    }

    /// The values of the tree in ascending order, equal values included.
    pub fn in_order_vec(&self) -> (out: Vec<T>)
        requires
            self.wf(),
        ensures
            out@ == self@,
    {
        let mut out = Vec::new();
        let ghost m = self.model();
        proof {
            if let Link::Real(r) = self.root {
                assert(m.node_ok(r));
            }
            assert(out@ =~= m.in_order().subrange(0, 0));
        }
        self.in_order_from(self.root, &mut out, Ghost(0), Ghost(m.size()));
        proof {
            assert(out@ =~= m.in_order());
        }
        out
    }
}

} // verus!
