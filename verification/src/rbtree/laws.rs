//! What holds of every red-black tree of this crate.

use vstd::prelude::*;
use vstd::arithmetic::power2::pow2;
use crate::order::sorted;
use crate::rbtree::{Color, Link, RBTree};
use crate::rbtree::model::Model;

verus! {

impl<T> Model<T> {
    /// The smallest number of black nodes on a path from `l` down to the
    /// sentinel.
    pub open spec fn fewest_black(self, l: Link) -> nat
        decreases self.span(l),
        when self.structure_ok() && self.link_ok(l)
    {
        match l {
            Link::Nil => 0,
            Link::Real(i) => {
                proof {
                    assert(self.node_ok(i));
                }
                let a = self.fewest_black(self.node(i).left);
                let b = self.fewest_black(self.node(i).right);
                (if self.node(i).color == Color::Black {
                    1nat
                } else {
                    0nat
                }) + if a < b {
                    a
                } else {
                    b
                }
            },
        }
    }

    /// The largest number of black nodes on a path from `l` down to the
    /// sentinel.
    pub open spec fn most_black(self, l: Link) -> nat
        decreases self.span(l),
        when self.structure_ok() && self.link_ok(l)
    {
        match l {
            Link::Nil => 0,
            Link::Real(i) => {
                proof {
                    assert(self.node_ok(i));
                }
                let a = self.most_black(self.node(i).left);
                let b = self.most_black(self.node(i).right);
                (if self.node(i).color == Color::Black {
                    1nat
                } else {
                    0nat
                }) + if a > b {
                    a
                } else {
                    b
                }
            },
        }
    }

    /// In a balanced table all paths from a link down to the sentinel pass
    /// the same number of black nodes.
    pub proof fn lemma_black_paths(self, l: Link)
        requires
            self.structure_ok(),
            self.black_balanced(),
            self.link_ok(l),
        ensures
            self.fewest_black(l) == self.most_black(l),
            self.most_black(l) == self.black_count(l),
        decreases self.span(l),
    {
        match l {
            Link::Nil => {},
            Link::Real(i) => {
                assert(self.node_ok(i));
                assert(self.bh_ok(i));
                self.lemma_black_paths(self.node(i).left);
                self.lemma_black_paths(self.node(i).right);
            },
        }
    }
}

/// Every path from the root of a tree down to the sentinel passes the same
/// number of black nodes.
pub proof fn lemma_equal_black_heights<T: Ord + Copy>(tree: RBTree<T>)
    requires
        tree.wf(),
    ensures
        tree.model().fewest_black(tree.model().root) == tree.model().most_black(
            tree.model().root,
        ),
{
    let m = tree.model();
    if let Link::Real(r) = m.root {
        assert(m.node_ok(r));
    }
    m.lemma_black_paths(m.root);
}

/// The longest path from the root down to the sentinel is at most twice as
/// long as the shortest.
pub proof fn lemma_height_ratio<T: Ord + Copy>(tree: RBTree<T>)
    requires
        tree.wf(),
    ensures
        tree.model().height(tree.model().root) <= 2 * tree.model().min_height(tree.model().root),
{
    let m = tree.model();
    if let Link::Real(r) = m.root {
        assert(m.node_ok(r));
    }
    m.lemma_heights(m.root);
}

/// The longest path from the root down to the sentinel is less than twice
/// as long as the shortest, but for the trees in which it is exactly twice
/// as long.
pub proof fn lemma_height_ratio_below_two<T: Ord + Copy>(tree: RBTree<T>)
    requires
        tree.wf(),
        tree.model().height(tree.model().root) != 2 * tree.model().min_height(tree.model().root),
    ensures
        tree.model().height(tree.model().root) < 2 * tree.model().min_height(tree.model().root),
{
    lemma_height_ratio(tree);
}

/// A tree of `n` values is at most `2 * b` nodes high for a `b` with
/// `2^b <= n + 1`: its height grows with the logarithm of its size.
pub proof fn lemma_height_logarithmic<T: Ord + Copy>(tree: RBTree<T>)
    requires
        tree.wf(),
    ensures
        exists|b: nat| tree.model().height(tree.model().root) <= 2 * b && pow2(b) <= tree@.len() + 1,
{
    let m = tree.model();
    if let Link::Real(r) = m.root {
        assert(m.node_ok(r));
    }
    m.lemma_heights(m.root);
    let b = m.black_count(m.root) as nat;
    assert(m.height(m.root) <= 2 * b && pow2(b) <= tree@.len() + 1);
}

/// The view of a tree lists its values as a walk from the root meets them
/// that visits left subtree, node and right subtree in turn.
pub proof fn lemma_in_order_is_walk<T: Ord + Copy>(tree: RBTree<T>)
    requires
        tree.wf(),
    ensures
        tree@ == tree.model().flatten(tree.model().root),
{
    let m = tree.model();
    if let Link::Real(r) = m.root {
        assert(m.node_ok(r));
    }
    m.lemma_flatten(m.root, 0, m.size());
    assert(m.in_order().subrange(0, m.size()) =~= m.in_order());
}

/// In a tree no value in the left subtree of a node is above the node's
/// value, and no value in its right subtree is below it.
pub proof fn lemma_search_tree<T: Ord + Copy>(tree: RBTree<T>, i: usize, j: usize)
    requires
        tree.wf(),
        tree.model().is_node(i),
        tree.model().is_node(j),
    ensures
        tree.model().m(i).lo <= tree.model().m(j).rank < tree.model().m(i).rank ==> crate::order::le(
            tree.model().node(j).value,
            tree.model().node(i).value,
        ),
        tree.model().m(i).rank < tree.model().m(j).rank < tree.model().m(i).hi ==> crate::order::le(
            tree.model().node(i).value,
            tree.model().node(j).value,
        ),
{
    let m = tree.model();
    assert(m.node_ok(i));
    assert(m.node_ok(j));
    assert(m.value_at(m.m(i).rank) == m.node(i).value);
    assert(m.value_at(m.m(j).rank) == m.node(j).value);
}

/// A tree holds no value exactly when its root is the sentinel.
pub proof fn lemma_empty_iff_nil_root<T: Ord + Copy>(tree: RBTree<T>)
    requires
        tree.wf(),
    ensures
        (tree@.len() == 0) == (tree.model().root == Link::Nil),
{
    let m = tree.model();
    if let Link::Real(r) = m.root {
        assert(m.node_ok(r));
    }
}

/// The values of a tree are in non-decreasing order.
pub proof fn lemma_in_order_sorted<T: Ord + Copy>(tree: RBTree<T>)
    requires
        tree.wf(),
    ensures
        sorted(tree@),
{
    let m = tree.model();
    assert forall|a: int, b: int| 0 <= a < b < tree@.len() implies crate::order::le(
        #[trigger] tree@[a],
        #[trigger] tree@[b],
    ) by {
        assert(crate::order::le(m.value_at(a), m.value_at(b)));
    }
}

} // verus!
