//! Descent by the total order.

use vstd::prelude::*;
use crate::order::{lemma_transitive, lemma_trichotomy, less, lt, same};
use crate::rbtree::{Link, RBTree};
use crate::rbtree::model::Model;

verus! {

impl<T: Ord> Model<T> {
    /// Every position before `lo` holds a value below `e`, and every position
    /// from `hi` on holds a value above `e`.
    pub open spec fn brackets(self, e: T, lo: int, hi: int) -> bool {
        &&& 0 <= lo <= hi <= self.size()
        &&& forall|k: int| 0 <= k < lo ==> lt(#[trigger] self.value_at(k), e)
        &&& forall|k: int| hi <= k < self.size() ==> lt(e, #[trigger] self.value_at(k))
    }

    /// Node `i` holds `e`, and every position that holds `e` lies in the
    /// subtree of `i`: it is the node that a descent for `e` finds.
    pub open spec fn finds(self, e: T, i: usize) -> bool {
        &&& self.is_node(i)
        &&& self.node(i).value == e
        &&& forall|k: int|
            0 <= k < self.size() && #[trigger] self.value_at(k) == e ==> self.m(i).lo <= k
                < self.m(i).hi
    }

    /// The node at which a descent for `e` from `l` stops: at each node it
    /// goes right where `e` is above the node's value and left where it is
    /// below, and it ends at a node that holds `e`, or at the sentinel.
    pub open spec fn descend(self, l: Link, e: T) -> Option<usize>
        decreases self.span(l),
        when self.structure_ok() && self.link_ok(l)
    {
        match l {
            Link::Nil => None,
            Link::Real(i) => {
                proof {
                    assert(self.node_ok(i));
                }
                if self.node(i).value == e {
                    Some(i)
                } else if lt(self.node(i).value, e) {
                    self.descend(self.node(i).right, e)
                } else {
                    self.descend(self.node(i).left, e)
                }
            },
        }
    }

    /// The node that a descent for `e` from the root finds.
    pub open spec fn find(self, e: T) -> Option<usize> {
        self.descend(self.root, e)
    }

    /// A descent that compared `e` above the value of `c` goes on in the
    /// right subtree.
    pub proof fn lemma_descend_right(self, e: T, c: usize, lo: int, hi: int)
        requires
            self.wf(),
            crate::order::total_order::<T>(),
            self.is_node(c),
            self.brackets(e, lo, hi),
            self.m(c).lo == lo,
            self.m(c).hi == hi,
            lt(self.node(c).value, e),
        ensures
            self.brackets(e, self.m(c).rank + 1, hi),
            self.covers(self.node(c).right, self.m(c).rank + 1, hi),
    {
        assert(self.node_ok(c));
        let r = self.m(c).rank;
        assert(self.value_at(r) == self.node(c).value);
        assert forall|k: int| 0 <= k < r + 1 implies lt(#[trigger] self.value_at(k), e) by {
            if k < r {
                lemma_transitive(self.value_at(k), self.value_at(r), e);
            }
        }
    }

    /// A descent that compared `e` below the value of `c` goes on in the
    /// left subtree.
    pub proof fn lemma_descend_left(self, e: T, c: usize, lo: int, hi: int)
        requires
            self.wf(),
            crate::order::total_order::<T>(),
            self.is_node(c),
            self.brackets(e, lo, hi),
            self.m(c).lo == lo,
            self.m(c).hi == hi,
            lt(e, self.node(c).value),
        ensures
            self.brackets(e, lo, self.m(c).rank),
            self.covers(self.node(c).left, lo, self.m(c).rank),
    {
        assert(self.node_ok(c));
        let r = self.m(c).rank;
        assert(self.value_at(r) == self.node(c).value);
        assert forall|k: int| r <= k < self.size() implies lt(e, #[trigger] self.value_at(k)) by {
            if r < k {
                lemma_transitive(e, self.value_at(r), self.value_at(k));
            }
        }
    }

    /// Brackets that close on an empty range leave no position for `e`.
    pub proof fn lemma_absent(self, e: T, g: int)
        requires
            crate::order::total_order::<T>(),
            self.brackets(e, g, g),
        ensures
            !self.in_order().contains(e),
    {
        if self.in_order().contains(e) {
            let k = choose|k: int| 0 <= k < self.in_order().len() && self.in_order()[k] == e;
            assert(self.value_at(k) == e);
            lemma_trichotomy(self.value_at(k), e);
        }
    }
}

impl<T: Ord + Copy> RBTree<T> {
    /// Descends from the root for `element`: right where it compares above
    /// the node's value, left where below. Returns the node that holds it,
    /// or `None` when the tree does not hold it.
    pub fn unsafe_search(&mut self, element: &T) -> (found: Option<usize>)
        requires
            old(self).wf(),
        ensures
            *final(self) == *old(self),
            found == old(self).model().find(*element),
            match found {
                Some(i) => old(self).model().finds(*element, i),
                None => !old(self)@.contains(*element),
            },
    {
        let ghost m = self.model();
        let ghost mut lo: int = 0;
        let ghost mut hi: int = m.size();
        let mut cur = self.root;
        loop
            invariant
                self.wf(),
                *self == *old(self),
                m == self.model(),
                m.brackets(*element, lo, hi),
                m.covers(cur, lo, hi),
                m.find(*element) == m.descend(cur, *element),
            decreases hi - lo,
        {
            match cur {
                Link::Nil => {
                    proof {
                        m.lemma_absent(*element, lo);
                    }
                    return None;
                },
                Link::Real(c) => {
                    proof {
                        assert(m.node_ok(c));
                    }
                    let v = self.nodes[c].value;
                    if same(&v, element) {
                        proof {
                            assert forall|k: int|
                                0 <= k < m.size() && #[trigger] m.value_at(k)
                                    == *element implies m.m(c).lo <= k < m.m(c).hi by {
                                lemma_trichotomy(m.value_at(k), *element);
                            }
                        }
                        return Some(c);
                    }
                    if less(&v, element) {
                        proof {
                            m.lemma_descend_right(*element, c, lo, hi);
                            lo = m.m(c).rank + 1;
                        }
                        cur = self.nodes[c].right;
                    } else {
                        proof {
                            lemma_trichotomy(v, *element);
                            m.lemma_descend_left(*element, c, lo, hi);
                            hi = m.m(c).rank;
                        }
                        cur = self.nodes[c].left;
                    }
                },
            }
        }
    }

    /// Whether the tree holds a value equal to `element`.
    pub fn search(&mut self, element: &T) -> (present: bool)
        requires
            old(self).wf(),
        ensures
            *final(self) == *old(self),
            present == old(self)@.contains(*element),
    {
        let found = self.unsafe_search(element);
        proof {
            if let Some(i) = found {
                let m = self.model();
                assert(m.node_ok(i));
                assert(m.in_order()[m.m(i).rank] == *element);
            }
        }
        found.is_some()
    }
}

} // verus!
