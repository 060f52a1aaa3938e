//! Deletion: splice a node out, then restore the black heights upwards.

use vstd::prelude::*;
use crate::order::{le, lemma_remove_any, lemma_remove_sorted, sorted, total_order};
use crate::rbtree::{Color, Link, Node, RBTree};
use crate::rbtree::model::{Meta, Model, Side};

verus! {

impl Meta {
    /// The record after the value at position `g` has left the order.
    pub open spec fn shift_down(self, g: int) -> Meta {
        Meta {
            rank: if self.rank > g { self.rank - 1 } else { self.rank },
            lo: if self.lo > g { self.lo - 1 } else { self.lo },
            hi: if self.hi > g { self.hi - 1 } else { self.hi },
            ..self
        }
    }
}

impl<T> Model<T> {
    /// The one child of `s` that may be real: the left one if it is, else
    /// the right one.
    pub open spec fn only_child(self, s: usize) -> Link {
        if self.node(s).left != Link::Nil {
            self.node(s).left
        } else {
            self.node(s).right
        }
    }

    /// The table after node `s`, which has at most one real child, has been
    /// taken out, its child linked in its place, and its value moved to
    /// node `d` where `d` is another node.
    pub open spec fn splice(self, s: usize, d: usize) -> Model<T> {
        let c = self.only_child(s);
        let p = self.node(s).parent;
        let g = self.m(s).rank;
        let m1 = match c {
            Link::Real(ci) => self.set_parent(ci, p),
            Link::Nil => self,
        };
        let m2 = match p {
            Link::Real(pi) => if m1.node(pi).left == Link::Real(s) {
                m1.set_left(pi, c)
            } else {
                m1.set_right(pi, c)
            },
            Link::Nil => m1.set_root(c),
        };
        let m3 = if s != d {
            m2.set_value(d, self.node(s).value)
        } else {
            m2
        };
        Model {
            free: m3.free.push(s),
            order: m3.order.remove(g),
            meta: Seq::new(
                m3.meta.len(),
                |i: int|
                    if i == s {
                        Meta { live: false, ..m3.meta[i] }
                    } else {
                        m3.meta[i].shift_down(g)
                    },
            ),
            ..m3
        }
    }

    /// Node `s` can be spliced out for the deletion of the value in `d`:
    /// it is `d` itself, or the node next in order behind `d`.
    pub open spec fn splice_ok(self, s: usize, d: usize) -> bool {
        &&& self.is_node(s)
        &&& self.is_node(d)
        &&& (self.node(s).left == Link::Nil || self.node(s).right == Link::Nil)
        &&& (s != d ==> self.node(s).left == Link::Nil && self.m(s).rank == self.m(d).rank + 1)
    }

    /// `r` is the table `self` with `s` spliced out, slot by slot.
    pub open spec fn spliced(self, r: Model<T>, s: usize, d: usize) -> bool {
        let c = self.only_child(s);
        let p = self.node(s).parent;
        let g = self.m(s).rank;
        &&& r.nodes.len() == self.nodes.len()
        &&& r.meta.len() == self.meta.len()
        &&& r.meta.len() == r.nodes.len()
        &&& r.nil == self.nil
        &&& r.order == self.order.remove(g)
        &&& r.free == self.free.push(s)
        &&& r.root == (if p == Link::Nil { c } else { self.root })
        &&& !r.m(s).live
        &&& c != Link::Real(s) && p != Link::Real(s) && (c != Link::Nil ==> c != p)
        &&& forall|i: usize|
            (i as int) < self.nodes.len() && i != s ==> #[trigger] r.m(i) == self.m(i).shift_down(g)
        &&& forall|i: usize|
            (i as int) < self.nodes.len() && i != s ==> {
                &&& (#[trigger] r.node(i)).color == self.node(i).color
                &&& r.node(i).value == (if i == d {
                    self.node(s).value
                } else {
                    self.node(i).value
                })
                &&& r.node(i).parent == (if Link::Real(i) == c {
                    p
                } else {
                    self.node(i).parent
                })
                &&& r.node(i).left == (if Link::Real(i) == p && self.node(i).left == Link::Real(
                    s,
                ) {
                    c
                } else {
                    self.node(i).left
                })
                &&& r.node(i).right == (if Link::Real(i) == p && self.node(i).right == Link::Real(
                    s,
                ) {
                    c
                } else {
                    self.node(i).right
                })
            }
    }

    /// The table after a splice, slot by slot.
    proof fn lemma_splice_links(self, s: usize, d: usize)
        requires
            self.structure_ok(),
            self.splice_ok(s, d),
        ensures
            self.spliced(self.splice(s, d), s, d),
    {
        let c = self.only_child(s);
        let p = self.node(s).parent;
        assert(self.node_ok(s));
        assert(self.node_ok(d));
        if let Link::Real(ci) = c {
            assert(self.node_ok(ci));
        }
        if let Link::Real(pi) = p {
            assert(self.node_ok(pi));
        }
    }

    /// After a splice the order lists the nodes that are left, each at its
    /// position.
    proof fn lemma_spliced_order(self, r: Model<T>, s: usize, d: usize)
        requires
            self.structure_ok(),
            self.splice_ok(s, d),
            self.spliced(r, s, d),
        ensures
            r.order_ok(),
            forall|i: usize| self.is_node(i) && i != s ==> r.order[#[trigger] r.m(i).rank] == i,
            forall|i: usize| self.is_node(i) && i != s ==> r.is_node(i),
            forall|i: usize| r.is_node(i) ==> self.is_node(i) && i != s,
    {
        let g = self.m(s).rank;
        assert(self.node_ok(s));
        assert forall|k: int| 0 <= k < r.order.len() implies r.is_node(#[trigger] r.order[k])
            && r.m(r.order[k]).rank == k by {
            if k < g {
                assert(r.order[k] == self.order[k]);
                assert(self.is_node(self.order[k]));
            } else {
                assert(r.order[k] == self.order[k + 1]);
                assert(self.is_node(self.order[k + 1]));
            }
        }
        assert forall|i: usize| self.is_node(i) && i != s implies r.order[#[trigger] r.m(i).rank]
            == i by {
            assert(self.node_ok(i));
            let rk = self.m(i).rank;
            if rk > g {
                assert(r.order[rk - 1] == self.order[rk]);
            } else {
                assert(r.order[rk] == self.order[rk]);
            }
        }
    }

    /// After a splice a node that is left is linked consistently.
    proof fn lemma_spliced_node_ok(self, r: Model<T>, s: usize, d: usize, i: usize)
        requires
            self.structure_ok(),
            self.splice_ok(s, d),
            self.spliced(r, s, d),
            self.is_node(i),
            i != s,
        ensures
            r.left_ok(i),
            r.right_ok(i),
            r.parent_ok(i),
            0 <= r.m(i).lo <= r.m(i).rank < r.m(i).hi <= r.size(),
    {
        let c = self.only_child(s);
        let p = self.node(s).parent;
        assert(self.node_ok(s));
        assert(self.node_ok(i));
        if let Link::Real(l) = self.node(i).left {
            assert(self.node_ok(l));
        }
        if let Link::Real(l) = self.node(i).right {
            assert(self.node_ok(l));
        }
        if let Link::Real(l) = self.node(i).parent {
            assert(self.node_ok(l));
        }
        if let Link::Real(ci) = c {
            assert(self.node_ok(ci));
        }
        if let Link::Real(pi) = p {
            assert(self.node_ok(pi));
        }
    }

    /// Splicing a node out keeps the table one tree.
    pub proof fn lemma_splice_structure(self, s: usize, d: usize)
        requires
            self.structure_ok(),
            self.splice_ok(s, d),
        ensures
            self.splice(s, d).structure_ok(),
            self.spliced(self.splice(s, d), s, d),
    {
        let r = self.splice(s, d);
        let c = self.only_child(s);
        let p = self.node(s).parent;
        self.lemma_splice_links(s, d);
        self.lemma_spliced_order(r, s, d);
        assert(self.node_ok(s));
        assert forall|i: usize| r.is_node(i) implies #[trigger] r.node_ok(i) by {
            self.lemma_spliced_node_ok(r, s, d, i);
            assert(r.order[r.m(i).rank] == i);
        }
        assert(r.root_ok()) by {
            if let Link::Real(rt) = self.root {
                assert(self.node_ok(rt));
                if rt != s {
                    assert(r.m(rt) == self.m(rt).shift_down(self.m(s).rank));
                }
            }
            if let Link::Real(ci) = c {
                assert(self.node_ok(ci));
                assert(r.m(ci) == self.m(ci).shift_down(self.m(s).rank));
            }
        }
        assert(r.free_ok()) by {
            assert forall|j: int| 0 <= j < r.free.len() implies (#[trigger] r.free[j] as int)
                < r.nodes.len() && !r.m(r.free[j]).live by {
                if j < self.free.len() {
                    assert(r.free[j] == self.free[j]);
                    assert((self.free[j] as int) < self.nodes.len());
                    assert(!self.m(self.free[j]).live);
                    assert(self.free[j] != s);
                    assert(r.m(self.free[j]) == self.m(self.free[j]).shift_down(self.m(s).rank));
                }
            }
            assert forall|j: int, k: int| 0 <= j < k < r.free.len() implies r.free[j]
                != r.free[k] by {
                assert(r.free[j] == self.free[j]);
                assert(!self.m(self.free[j]).live);
                if k < self.free.len() {
                    assert(r.free[k] == self.free[k]);
                }
            }
        }
    }
}

impl<T: Ord> Model<T> {
    /// What is left to do in the restoring loop of a deletion: it falls as
    /// the shortage moves up, and when `x` turns red.
    pub open spec fn fix_measure(self, x: Link, p: Link) -> int {
        (match p {
            Link::Real(pi) => 2 * (self.size() - (self.m(pi).hi - self.m(pi).lo) + 1),
            Link::Nil => 0,
        }) + (if self.color_of(x) == Color::Black {
            1int
        } else {
            0int
        })
    }

    /// The sibling of `x` below `pi`.
    pub open spec fn sibling(self, x: Link, pi: usize) -> usize {
        self.node(pi).child(self.side_of(x, pi).flip()).index()
    }

    /// The step for a red sibling: the sibling turns black, the parent
    /// turns red and moves down to the side of `x`.
    pub open spec fn turn_sibling(self, x: Link, pi: usize) -> Model<T> {
        let w = self.sibling(x, pi);
        self.set_color(w, Color::Black).set_color(pi, Color::Red).rotate(pi, self.side_of(x, pi))
    }

    /// The step for a black sibling with black children: the sibling turns
    /// red.
    pub open spec fn push_up(self, x: Link, pi: usize) -> Model<T> {
        self.set_color(self.sibling(x, pi), Color::Red).set_meta(
            pi,
            Meta { bh: self.m(pi).bh - 1, ..self.m(pi) },
        )
    }

    /// The step for a black sibling whose far child is black and whose
    /// near child is red: the near child turns black, the sibling turns red
    /// and moves down away from `x`.
    pub open spec fn turn_near(self, x: Link, pi: usize) -> Model<T> {
        let s = self.side_of(x, pi);
        let w = self.sibling(x, pi);
        self.set_color(self.node(w).child(s).index(), Color::Black).set_color(
            w,
            Color::Red,
        ).rotate(w, s.flip())
    }

    /// The step for a black sibling whose far child is red: the sibling
    /// takes the parent's colour, parent and far child turn black, and the
    /// parent moves down to the side of `x`.
    pub open spec fn turn_far(self, x: Link, pi: usize) -> Model<T> {
        let s = self.side_of(x, pi);
        let w = self.sibling(x, pi);
        self.set_color(w, self.node(pi).color).set_color(pi, Color::Black).set_color(
            self.node(w).child(s.flip()).index(),
            Color::Black,
        ).set_meta(pi, Meta { bh: self.m(pi).bh - 1, ..self.m(pi) }).set_meta(
            w,
            Meta { bh: self.m(w).bh + 1, ..self.m(w) },
        ).rotate(pi, s)
    }

    /// The table with the node behind `x`, if there is one, black.
    pub open spec fn blacken(self, x: Link) -> Model<T> {
        match x {
            Link::Real(xi) => self.set_color(xi, Color::Black),
            Link::Nil => self,
        }
    }

    /// The table `self` with a red sibling of `x` turned away, if `x` has
    /// one.
    pub open spec fn black_sibling(self, x: Link, pi: usize) -> Model<T> {
        if self.node(self.sibling(x, pi)).color == Color::Red {
            self.turn_sibling(x, pi)
        } else {
            self
        }
    }

    /// The table after the black heights have been restored from `x`, the
    /// child of `p`, upwards: while `x` is black and not the root, a
    /// sibling with black children passes the task on to the parent, and a
    /// sibling with a red child ends it with one or two rotations. In the
    /// end `x` turns black.
    pub open spec fn delete_fix(self, x: Link, p: Link) -> Model<T>
        decreases self.fix_measure(x, p),
        when self.deficit(x, p)
        via Self::delete_fix_decreases
    {
        if self.root == x || self.color_of(x) != Color::Black {
            self.blacken(x)
        } else {
            let pi = p.index();
            let s = self.side_of(x, pi);
            let m1 = self.black_sibling(x, pi);
            let w = m1.sibling(x, pi);
            if m1.color_of(m1.node(w).left) == Color::Black && m1.color_of(m1.node(w).right)
                == Color::Black {
                m1.push_up(x, pi).delete_fix(p, m1.node(pi).parent)
            } else {
                let m2 = if m1.color_of(m1.node(w).child(s.flip())) == Color::Black {
                    m1.turn_near(x, pi)
                } else {
                    m1
                };
                let m3 = m2.turn_far(x, pi);
                m3.blacken(m3.root)
            }
        }
    }

    /// Less is left to do where `delete_fix` goes on from the parent.
    #[via_fn]
    proof fn delete_fix_decreases(self, x: Link, p: Link) {
        if !(self.root == x || self.color_of(x) != Color::Black) {
            let pi = p.index();
            let m1 = self.black_sibling(x, pi);
            let w = m1.sibling(x, pi);
            self.lemma_black_sibling(x, p);
            if m1.color_of(m1.node(w).left) == Color::Black && m1.color_of(m1.node(w).right)
                == Color::Black {
                self.lemma_measure_falls(x, p);
            }
        }
    }

    /// Turning a red sibling away leaves `x` black, below `p`, one black
    /// node short, with a black sibling.
    pub proof fn lemma_black_sibling(self, x: Link, p: Link)
        requires
            self.deficit(x, p),
            self.root != x,
            self.color_of(x) == Color::Black,
        ensures
            ({
                let pi = p.index();
                let m1 = self.black_sibling(x, pi);
                let w = m1.sibling(x, pi);
                &&& p == Link::Real(pi)
                &&& m1.deficit(x, p)
                &&& m1.root != x
                &&& m1.color_of(x) == Color::Black
                &&& m1.side_of(x, pi) == self.side_of(x, pi)
                &&& m1.node(pi).child(m1.side_of(x, pi).flip()) == Link::Real(w)
                &&& m1.is_node(w)
                &&& m1.node(w).color == Color::Black
                &&& m1.in_order() == self.in_order()
                &&& m1.size() == self.size()
                &&& m1.fix_measure(x, p) >= self.fix_measure(x, p)
                &&& (m1 != self ==> m1.node(pi).color == Color::Red && (m1.node(
                    pi,
                ).parent matches Link::Real(q) && m1.m(q).hi - m1.m(q).lo == self.m(pi).hi
                    - self.m(pi).lo))
            }),
    {
        let pi = p.index();
        self.lemma_black_child(x, p);
        let w0 = self.sibling(x, pi);
        if self.node(w0).color == Color::Red {
            let s = self.side_of(x, pi);
            let ma = self.set_color(w0, Color::Black).set_color(pi, Color::Red);
            assert(self.node_ok(pi));
            assert(self.painted(ma));
            self.lemma_painted(ma);
            ma.lemma_rotate(pi, s);
            let m1 = ma.rotate(pi, s);
            self.lemma_red_sibling(ma, m1, x, p);
            m1.lemma_black_child(x, p);
            assert(m1.node_ok(pi));
            assert(m1.node_ok(m1.node(pi).parent.index()));
        }
    }

    /// Where the shortage moves up, less is left to do.
    pub proof fn lemma_measure_falls(self, x: Link, p: Link)
        requires
            self.deficit(x, p),
            self.root != x,
            self.color_of(x) == Color::Black,
            ({
                let pi = p.index();
                let m1 = self.black_sibling(x, pi);
                let w = m1.sibling(x, pi);
                m1.color_of(m1.node(w).left) == Color::Black && m1.color_of(m1.node(w).right)
                    == Color::Black
            }),
        ensures
            ({
                let pi = p.index();
                let m1 = self.black_sibling(x, pi);
                let r = m1.push_up(x, pi);
                let q = m1.node(pi).parent;
                &&& r.deficit(p, q)
                &&& r.in_order() == self.in_order()
                &&& 0 <= r.fix_measure(p, q) < self.fix_measure(x, p)
            }),
    {
        let pi = p.index();
        let m1 = self.black_sibling(x, pi);
        let r = m1.push_up(x, pi);
        let q = m1.node(pi).parent;
        self.lemma_black_child(x, p);
        self.lemma_black_sibling(x, p);
        m1.lemma_push_up(r, x, p);
        assert(self.node_ok(pi));
        if let Link::Real(qi) = q {
            assert(r.node_ok(qi));
            assert(m1.node_ok(qi));
        }
    }

    /// The table after one value equal to `e` has been deleted: the node
    /// that a descent finds gives up its value; where it has two children,
    /// the node next in order hands its value over and is spliced out in
    /// its place. The table is left as it is where no node holds `e`.
    pub open spec fn deleted(self, e: T) -> Model<T> {
        match self.find(e) {
            None => self,
            Some(d) => {
                let s = if self.node(d).left == Link::Nil || self.node(d).right == Link::Nil {
                    d
                } else {
                    self.order[self.m(d).rank + 1]
                };
                let r = self.splice(s, d);
                if self.node(s).color == Color::Black {
                    r.delete_fix(self.only_child(s), self.node(s).parent)
                } else {
                    r
                }
            },
        }
    }

    /// The values of the table after a node has been spliced out.
    proof fn lemma_spliced_values(self, r: Model<T>, s: usize, d: usize)
        requires
            self.structure_ok(),
            self.sorted(),
            self.splice_ok(s, d),
            self.spliced(r, s, d),
        ensures
            r.in_order() == self.in_order().remove(self.m(d).rank),
            r.sorted(),
    {
        let g = self.m(s).rank;
        let gd = self.m(d).rank;
        let t = self.in_order();
        assert(self.node_ok(s));
        assert(self.node_ok(d));
        assert forall|k: int| 0 <= k < r.size() implies #[trigger] r.value_at(k) == t.remove(
            gd,
        )[k] by {
            if k < g {
                assert(r.order[k] == self.order[k]);
                assert(self.is_node(self.order[k]));
                assert(self.node_ok(self.order[k]));
            } else {
                assert(r.order[k] == self.order[k + 1]);
                assert(self.is_node(self.order[k + 1]));
                assert(self.node_ok(self.order[k + 1]));
            }
        }
        assert(r.in_order() =~= t.remove(gd));
        assert(sorted(t)) by {
            assert forall|a: int, b: int| 0 <= a < b < t.len() implies le(
                #[trigger] t[a],
                #[trigger] t[b],
            ) by {
                assert(le(self.value_at(a), self.value_at(b)));
            }
        }
        lemma_remove_sorted(t, gd);
        assert forall|a: int, b: int| 0 <= a < b < r.size() implies le(
            #[trigger] r.value_at(a),
            #[trigger] r.value_at(b),
        ) by {
            assert(r.value_at(a) == t.remove(gd)[a]);
            assert(r.value_at(b) == t.remove(gd)[b]);
        }
    }

    /// Splicing out a red node leaves a red-black tree; splicing out a
    /// black one leaves the paths through its place one black node short.
    pub proof fn lemma_splice(self, s: usize, d: usize)
        requires
            self.wf(),
            self.splice_ok(s, d),
        ensures
            self.node(s).color == Color::Red ==> self.splice(s, d).wf(),
            self.node(s).color == Color::Black ==> self.splice(s, d).deficit(
                self.only_child(s),
                self.node(s).parent,
            ),
            self.splice(s, d).in_order() == self.in_order().remove(self.m(d).rank),
    {
        let r = self.splice(s, d);
        let c = self.only_child(s);
        let p = self.node(s).parent;
        self.lemma_splice_structure(s, d);
        self.lemma_spliced_values(r, s, d);
        self.lemma_spliced_order(r, s, d);
        assert(self.node_ok(s));
        assert(self.bh_ok(s));
        assert(self.rr_ok(s));
        if let Link::Real(ci) = c {
            assert(self.node_ok(ci));
            assert(self.bh_ok(ci));
            assert(self.rr_ok(ci));
        }
        if let Link::Real(pi) = p {
            assert(self.node_ok(pi));
            assert(self.bh_ok(pi));
            assert(self.rr_ok(pi));
            if let Link::Real(l) = self.node(pi).left {
                assert(self.node_ok(l));
            }
        }
        assert forall|i: usize| r.is_node(i) && Link::Real(i) != p implies #[trigger] r.bh_ok(
            i,
        ) by {
            assert(self.bh_ok(i));
            assert(self.node_ok(i));
        }
        assert forall|i: usize| r.is_node(i) implies #[trigger] r.rr_ok_except(i, c) by {
            assert(self.rr_ok(i));
            assert(self.node_ok(i));
        }
        if self.node(s).color == Color::Red {
            assert forall|i: usize| r.is_node(i) implies #[trigger] r.bh_ok(i) by {
                assert(self.bh_ok(i));
                assert(self.node_ok(i));
            }
            assert forall|i: usize| r.is_node(i) implies #[trigger] r.rr_ok(i) by {
                assert(self.rr_ok(i));
                assert(self.node_ok(i));
                assert(r.rr_ok_except(i, c));
            }
            assert(r.root_black());
        } else {
            assert(r.root_black() || r.root == c);
        }
    }

    /// Inside the restoring loop, where `x` is black and not the root: the
    /// parent and the sibling of `x` are real nodes.
    pub proof fn lemma_black_child(self, x: Link, p: Link)
        requires
            self.deficit(x, p),
            self.root != x,
            self.color_of(x) == Color::Black,
        ensures
            ({
                let pi = p.index();
                let s = self.side_of(x, pi);
                let w = self.node(pi).child(s.flip()).index();
                &&& p == Link::Real(pi)
                &&& self.is_node(pi)
                &&& self.node(pi).child(s) == x
                &&& self.node(pi).child(s.flip()) == Link::Real(w)
                &&& self.is_node(w)
                &&& w != pi
                &&& Link::Real(w) != x
                &&& Link::Real(pi) != x
                &&& self.m(w).bh >= 0
                &&& self.bh_ok(w)
                &&& forall|i: usize| self.is_node(i) ==> #[trigger] self.rr_ok(i)
            }),
    {
        let pi = p.index();
        let s = self.side_of(x, pi);
        assert(self.node_ok(pi));
        if let Link::Real(xi) = x {
            assert(self.node_ok(xi));
            assert(self.bh_ok(xi));
        }
        let wl = self.node(pi).child(s.flip());
        if let Link::Real(w) = wl {
            assert(self.node_ok(w));
            assert(self.bh_ok(w));
        }
        assert forall|i: usize| self.is_node(i) implies #[trigger] self.rr_ok(i) by {
            assert(self.rr_ok_except(i, x));
        }
    }

    /// The step with a red sibling: the sibling turns black, the parent
    /// turns red and moves down to the side of `x`. The new sibling of `x`
    /// is black.
    pub proof fn lemma_red_sibling(self, m1: Model<T>, r: Model<T>, x: Link, p: Link)
        requires
            self.deficit(x, p),
            self.root != x,
            self.color_of(x) == Color::Black,
            ({
                let pi = p.index();
                let s = self.side_of(x, pi);
                let w = self.node(pi).child(s.flip()).index();
                &&& self.node(w).color == Color::Red
                &&& m1 == self.set_color(w, Color::Black).set_color(pi, Color::Red)
                &&& m1.rotated(r, pi, s)
            }),
        ensures
            r.deficit(x, p),
            r.root != x,
            r.color_of(x) == Color::Black,
            r.side_of(x, p.index()) == self.side_of(x, p.index()),
            r.color_of(r.node(p.index()).child(self.side_of(x, p.index()).flip())) == Color::Black,
            r.color_of(p) == Color::Red,
            r.in_order() == self.in_order(),
            r.size() == self.size(),
            r.node(p.index()).parent matches Link::Real(q) && r.m(q).hi - r.m(q).lo == self.m(
                p.index(),
            ).hi - self.m(p.index()).lo,
    {
        let pi = p.index();
        let s = self.side_of(x, pi);
        let w = self.node(pi).child(s.flip()).index();
        let n = self.node(w).child(s);
        let f = self.node(w).child(s.flip());
        let gp = self.node(pi).parent;
        self.lemma_black_child(x, p);
        assert(self.node_ok(pi));
        assert(self.node_ok(w));
        assert(self.rr_ok(w));
        assert(self.rr_ok(pi));
        if let Link::Real(xi) = x {
            assert(self.node_ok(xi));
        }
        if let Link::Real(ni) = n {
            assert(self.node_ok(ni));
        }
        if let Link::Real(fi) = f {
            assert(self.node_ok(fi));
        }
        if let Link::Real(q) = gp {
            assert(self.node_ok(q));
            assert(self.rr_ok(q));
        }
        assert(self.painted(m1));
        self.lemma_painted(m1);
        r.lemma_same_content_values(m1);
        assert(r.sorted()) by {
            assert forall|a: int, b: int| 0 <= a < b < r.size() implies le(
                #[trigger] r.value_at(a),
                #[trigger] r.value_at(b),
            ) by {
                assert(le(self.value_at(a), self.value_at(b)));
            }
        }
        assert forall|i: usize| (i as int) < self.nodes.len() implies #[trigger] r.m(i).bh
            == self.m(i).bh by {
            assert(m1.m(i).bh == self.m(i).bh);
        }
        assert forall|i: usize| (i as int) < self.nodes.len() && i != pi && i != w implies (
        #[trigger] r.node(i)).color == self.node(i).color by {
            assert(m1.node(i).color == self.node(i).color);
        }
        assert(r.node(pi).color == Color::Red);
        assert(r.node(w).color == Color::Black);
        assert(m1.m(pi) == self.m(pi));
        assert forall|i: usize| r.is_node(i) && Link::Real(i) != p implies #[trigger] r.bh_ok(
            i,
        ) by {
            assert(self.is_node(i));
            assert(self.bh_ok(i));
            assert(self.node_ok(i));
            if i == w {
            } else if Link::Real(i) == n {
            } else if Link::Real(i) == gp {
            } else {
                assert(r.node(i) == m1.node(i));
            }
        }
        assert forall|i: usize| r.is_node(i) implies #[trigger] r.rr_ok_except(i, x) by {
            assert(self.is_node(i));
            assert(self.rr_ok(i));
            assert(self.node_ok(i));
            if i == w {
            } else if i == pi {
            } else if Link::Real(i) == n {
            } else if Link::Real(i) == gp {
            } else {
                assert(r.node(i) == m1.node(i));
            }
        }
        assert(r.short_at(x, pi));
        assert(r.root_black());
    }

    /// The step with a black sibling whose children are black: the sibling
    /// turns red, and the shortage moves up to the parent.
    pub proof fn lemma_push_up(self, r: Model<T>, x: Link, p: Link)
        requires
            self.deficit(x, p),
            self.root != x,
            self.color_of(x) == Color::Black,
            ({
                let pi = p.index();
                let s = self.side_of(x, pi);
                let w = self.node(pi).child(s.flip()).index();
                &&& self.node(w).color == Color::Black
                &&& self.color_of(self.node(w).left) == Color::Black
                &&& self.color_of(self.node(w).right) == Color::Black
                &&& r == self.set_color(w, Color::Red).set_meta(
                    pi,
                    Meta { bh: self.m(pi).bh - 1, ..self.m(pi) },
                )
            }),
        ensures
            r.deficit(p, self.node(p.index()).parent),
            r.in_order() == self.in_order(),
            r.size() == self.size(),
            r.color_of(p) == self.color_of(p),
            r.node(p.index()).parent == self.node(p.index()).parent,
            forall|i: usize|
                (i as int) < self.nodes.len() ==> (#[trigger] r.m(i)).hi == self.m(i).hi && r.m(
                    i,
                ).lo == self.m(i).lo,
            self.node(p.index()).parent matches Link::Real(q) ==> self.m(q).hi - self.m(q).lo
                > self.m(p.index()).hi - self.m(p.index()).lo,
    {
        let pi = p.index();
        let s = self.side_of(x, pi);
        let w = self.node(pi).child(s.flip()).index();
        let gp = self.node(pi).parent;
        self.lemma_black_child(x, p);
        assert(self.node_ok(pi));
        assert(self.node_ok(w));
        if let Link::Real(xi) = x {
            assert(self.node_ok(xi));
        }
        if let Link::Real(q) = gp {
            assert(self.node_ok(q));
            assert(self.bh_ok(q));
            if let Link::Real(l) = self.node(q).left {
                assert(self.node_ok(l));
            }
        }
        assert(self.painted(r));
        self.lemma_painted(r);
        assert(r.sorted()) by {
            assert forall|a: int, b: int| 0 <= a < b < r.size() implies le(
                #[trigger] r.value_at(a),
                #[trigger] r.value_at(b),
            ) by {
                assert(le(self.value_at(a), self.value_at(b)));
            }
        }
        assert forall|i: usize| r.is_node(i) && Link::Real(i) != gp implies #[trigger] r.bh_ok(
            i,
        ) by {
            assert(self.is_node(i));
            assert(self.node_ok(i));
            if i != pi {
                assert(self.bh_ok(i));
            }
        }
        assert forall|i: usize| r.is_node(i) implies #[trigger] r.rr_ok_except(i, p) by {
            assert(self.is_node(i));
            assert(self.rr_ok(i));
            assert(self.node_ok(i));
        }
        if let Link::Real(q) = gp {
            assert(r.short_at(p, q));
        }
    }

    /// The step with a black sibling whose near child is red and whose far
    /// child is black: the near child turns black, the sibling turns red
    /// and moves down away from `x`. The new sibling of `x` is black with a
    /// red far child.
    pub proof fn lemma_near_red(self, m1: Model<T>, r: Model<T>, x: Link, p: Link)
        requires
            self.deficit(x, p),
            self.root != x,
            self.color_of(x) == Color::Black,
            ({
                let pi = p.index();
                let s = self.side_of(x, pi);
                let w = self.node(pi).child(s.flip()).index();
                let n = self.node(w).child(s);
                &&& self.node(w).color == Color::Black
                &&& self.color_of(n) == Color::Red
                &&& self.color_of(self.node(w).child(s.flip())) == Color::Black
                &&& m1 == self.set_color(n.index(), Color::Black).set_color(w, Color::Red)
                &&& m1.rotated(r, w, s.flip())
            }),
        ensures
            r.deficit(x, p),
            r.root != x,
            r.color_of(x) == Color::Black,
            r.side_of(x, p.index()) == self.side_of(x, p.index()),
            ({
                let pi = p.index();
                let s = self.side_of(x, pi);
                let w2 = r.node(pi).child(s.flip()).index();
                &&& r.node(pi).child(s.flip()) == Link::Real(w2)
                &&& r.node(w2).color == Color::Black
                &&& r.color_of(r.node(w2).child(s.flip())) == Color::Red
            }),
            r.in_order() == self.in_order(),
            r.size() == self.size(),
            r.m(p.index()) == self.m(p.index()),
    {
        let pi = p.index();
        let s = self.side_of(x, pi);
        let w = self.node(pi).child(s.flip()).index();
        let n = self.node(w).child(s);
        let ni = n.index();
        let f = self.node(w).child(s.flip());
        let b = self.node(ni).child(s.flip());
        let a = self.node(ni).child(s);
        self.lemma_black_child(x, p);
        assert(self.node_ok(pi));
        assert(self.node_ok(w));
        assert(self.node_ok(ni));
        assert(self.bh_ok(ni));
        assert(self.rr_ok(ni));
        if let Link::Real(xi) = x {
            assert(self.node_ok(xi));
        }
        if let Link::Real(fi) = f {
            assert(self.node_ok(fi));
        }
        if let Link::Real(bi) = b {
            assert(self.node_ok(bi));
        }
        if let Link::Real(ai) = a {
            assert(self.node_ok(ai));
        }
        assert(self.painted(m1));
        self.lemma_painted(m1);
        r.lemma_same_content_values(m1);
        assert(r.sorted()) by {
            assert forall|a: int, b: int| 0 <= a < b < r.size() implies le(
                #[trigger] r.value_at(a),
                #[trigger] r.value_at(b),
            ) by {
                assert(le(self.value_at(a), self.value_at(b)));
            }
        }
        assert forall|i: usize| (i as int) < self.nodes.len() implies #[trigger] r.m(i).bh
            == self.m(i).bh by {
            assert(m1.m(i).bh == self.m(i).bh);
        }
        assert forall|i: usize| (i as int) < self.nodes.len() && i != ni && i != w implies (
        #[trigger] r.node(i)).color == self.node(i).color by {
            assert(m1.node(i).color == self.node(i).color);
        }
        assert(r.node(ni).color == Color::Black);
        assert(r.node(w).color == Color::Red);
        assert(r.m(pi) == self.m(pi)) by {
            assert(m1.m(pi) == self.m(pi));
        }
        assert forall|i: usize| r.is_node(i) && Link::Real(i) != p implies #[trigger] r.bh_ok(
            i,
        ) by {
            assert(self.is_node(i));
            assert(self.bh_ok(i));
            assert(self.node_ok(i));
            if i == w {
            } else if i == ni {
            } else if Link::Real(i) == b {
            } else {
                assert(r.node(i) == m1.node(i));
            }
        }
        assert forall|i: usize| r.is_node(i) implies #[trigger] r.rr_ok_except(i, x) by {
            assert(self.is_node(i));
            assert(self.rr_ok(i));
            assert(self.node_ok(i));
            if i == w {
            } else if i == ni {
            } else if i == pi {
            } else if Link::Real(i) == b {
            } else {
                assert(r.node(i) == m1.node(i));
            }
        }
        assert(r.short_at(x, pi));
        assert(r.root_black());
    }

    /// The step with a black sibling whose far child is red: the sibling
    /// takes the parent's colour, parent and far child turn black, and the
    /// parent moves down to the side of `x`. The colour rules hold again.
    pub proof fn lemma_far_red(self, m1: Model<T>, r: Model<T>, x: Link, p: Link)
        requires
            self.deficit(x, p),
            self.root != x,
            self.color_of(x) == Color::Black,
            ({
                let pi = p.index();
                let s = self.side_of(x, pi);
                let w = self.node(pi).child(s.flip()).index();
                let f = self.node(w).child(s.flip());
                &&& self.node(w).color == Color::Black
                &&& self.color_of(f) == Color::Red
                &&& m1 == self.set_color(w, self.node(pi).color).set_color(
                    pi,
                    Color::Black,
                ).set_color(f.index(), Color::Black).set_meta(
                    pi,
                    Meta { bh: self.m(pi).bh - 1, ..self.m(pi) },
                ).set_meta(w, Meta { bh: self.m(w).bh + 1, ..self.m(w) })
                &&& m1.rotated(r, pi, s)
            }),
        ensures
            r.wf(),
            r.in_order() == self.in_order(),
    {
        let pi = p.index();
        let s = self.side_of(x, pi);
        let w = self.node(pi).child(s.flip()).index();
        let f = self.node(w).child(s.flip());
        let fi = f.index();
        let n = self.node(w).child(s);
        let gp = self.node(pi).parent;
        self.lemma_black_child(x, p);
        assert(self.node_ok(pi));
        assert(self.node_ok(w));
        assert(self.node_ok(fi));
        assert(self.bh_ok(fi));
        if let Link::Real(xi) = x {
            assert(self.node_ok(xi));
        }
        if let Link::Real(ni) = n {
            assert(self.node_ok(ni));
        }
        if let Link::Real(q) = gp {
            assert(self.node_ok(q));
            assert(self.bh_ok(q));
            assert(self.rr_ok(q));
        }
        assert(self.painted(m1));
        self.lemma_painted(m1);
        r.lemma_same_content_values(m1);
        assert(r.sorted()) by {
            assert forall|a: int, b: int| 0 <= a < b < r.size() implies le(
                #[trigger] r.value_at(a),
                #[trigger] r.value_at(b),
            ) by {
                assert(le(self.value_at(a), self.value_at(b)));
            }
        }
        assert forall|i: usize| (i as int) < self.nodes.len() && i != pi && i != w implies (
        #[trigger] r.m(i)).bh == self.m(i).bh by {
            assert(m1.m(i).bh == self.m(i).bh);
        }
        assert(r.m(pi).bh == self.m(pi).bh - 1) by {
            assert(m1.m(pi).bh == self.m(pi).bh - 1);
        }
        assert(r.m(w).bh == self.m(w).bh + 1) by {
            assert(m1.m(w).bh == self.m(w).bh + 1);
        }
        assert forall|i: usize|
            (i as int) < self.nodes.len() && i != pi && i != w && i != fi implies (
        #[trigger] r.node(i)).color == self.node(i).color by {
            assert(m1.node(i).color == self.node(i).color);
        }
        assert(r.node(pi).color == Color::Black) by {
            assert(m1.node(pi).color == Color::Black);
        }
        assert(r.node(fi).color == Color::Black) by {
            assert(m1.node(fi).color == Color::Black);
        }
        assert(r.node(w).color == self.node(pi).color) by {
            assert(m1.node(w).color == self.node(pi).color);
        }
        assert forall|i: usize| r.is_node(i) implies #[trigger] r.bh_ok(i) by {
            assert(self.is_node(i));
            assert(self.node_ok(i));
            if i == pi {
            } else if i == w {
                assert(self.bh_ok(i));
            } else if i == fi {
                assert(self.bh_ok(i));
            } else if Link::Real(i) == n {
                assert(self.bh_ok(i));
            } else if Link::Real(i) == gp {
                assert(self.bh_ok(i));
            } else {
                assert(self.bh_ok(i));
                assert(r.node(i) == m1.node(i));
            }
        }
        assert forall|i: usize| r.is_node(i) implies #[trigger] r.rr_ok(i) by {
            assert(self.is_node(i));
            assert(self.rr_ok(i));
            assert(self.node_ok(i));
            if i == pi {
            } else if i == w {
            } else if i == fi {
            } else if Link::Real(i) == n {
            } else if Link::Real(i) == gp {
            } else {
                assert(r.node(i) == m1.node(i));
            }
        }
        assert(r.root_black());
    }

    /// Once `x` is the root or red, turning it black makes up for the
    /// missing black node.
    pub proof fn lemma_absorb(self, r: Model<T>, x: Link, p: Link)
        requires
            self.deficit(x, p),
            self.root == x || self.color_of(x) == Color::Red,
            r == (match x {
                Link::Real(xi) => self.set_color(xi, Color::Black),
                Link::Nil => self,
            }),
        ensures
            r.wf(),
            r.in_order() == self.in_order(),
    {
        if let Link::Real(xi) = x {
            assert(self.node_ok(xi));
            if Link::Real(xi) != p {
                assert(self.bh_ok(xi));
            }
        }
        if let Link::Real(pi) = p {
            assert(self.node_ok(pi));
            if let Link::Real(l) = self.node(pi).left {
                assert(self.node_ok(l));
            }
            if let Link::Real(l) = self.node(pi).right {
                assert(self.node_ok(l));
            }
        }
        if let Link::Real(rt) = self.root {
            assert(self.node_ok(rt));
        }
        assert(self.painted(r));
        self.lemma_painted(r);
        assert(r.sorted()) by {
            assert forall|a: int, b: int| 0 <= a < b < r.size() implies le(
                #[trigger] r.value_at(a),
                #[trigger] r.value_at(b),
            ) by {
                assert(le(self.value_at(a), self.value_at(b)));
            }
        }
        assert forall|i: usize| r.is_node(i) implies #[trigger] r.bh_ok(i) by {
            assert(self.is_node(i));
            assert(self.node_ok(i));
            if Link::Real(i) != p {
                assert(self.bh_ok(i));
            }
        }
        assert forall|i: usize| r.is_node(i) implies #[trigger] r.rr_ok(i) by {
            assert(self.is_node(i));
            assert(self.rr_ok_except(i, x));
            assert(self.node_ok(i));
        }
    }
}

impl<T: Ord + Copy> RBTree<T> {
    /// The leftmost node of the subtree of `node`.
    pub(crate) fn follow_left(&self, node: usize) -> (s: usize)
        requires
            self.model().structure_ok(),
            self.model().is_node(node),
        ensures
            self.model().is_node(s),
            self.model().node(s).left == Link::Nil,
            self.model().m(s).rank == self.model().m(node).lo,
        decreases self.model().m(node).hi - self.model().m(node).lo,
    {
        proof {
            assert(self.model().node_ok(node));
        }
        if let Link::Real(left) = self.nodes[node].left {
            proof {
                assert(self.model().node_ok(left));
            }
            self.follow_left(left)
        } else {
            node
        }
    }

    /// The node next in order behind `node`, which has a right child.
    pub(crate) fn in_order_successor(&self, node: usize) -> (s: usize)
        requires
            self.model().structure_ok(),
            self.model().is_node(node),
            self.model().node(node).right != Link::Nil,
        ensures
            self.model().is_node(s),
            self.model().node(s).left == Link::Nil,
            self.model().m(s).rank == self.model().m(node).rank + 1,
            s == self.model().order[self.model().m(node).rank + 1],
            s != node,
    {
        proof {
            assert(self.model().node_ok(node));
        }
        let s = self.follow_left(self.nodes[node].right.into_node());
        proof {
            assert(self.model().node_ok(s));
        }
        s
    }

    /// Gives the slot of the unlinked node `s` back and takes its position
    /// out of the order.
    fn release(&mut self, s: usize, Ghost(g): Ghost<int>)
        requires
            (s as int) < old(self).model().nodes.len(),
            old(self).model().meta.len() == old(self).model().nodes.len(),
        ensures
            final(self).model() == (Model {
                free: old(self).model().free.push(s),
                order: old(self).model().order.remove(g),
                meta: Seq::new(
                    old(self).model().meta.len(),
                    |i: int|
                        if i == s {
                            Meta { live: false, ..old(self).model().meta[i] }
                        } else {
                            old(self).model().meta[i].shift_down(g)
                        },
                ),
                ..old(self).model()
            }),
    {
        let ghost m = self.model();
        self.free.push(s);
        self.order = Ghost(m.order.remove(g));
        self.meta = Ghost(
            Seq::new(
                m.meta.len(),
                |i: int|
                    if i == s {
                        Meta { live: false, ..m.meta[i] }
                    } else {
                        m.meta[i].shift_down(g)
                    },
            ),
        );
    }

    /// The step of the restoring loop for a red sibling `w`. Returns the
    /// new sibling of `x`, which is black.
    fn fix_red_sibling(&mut self, x: Link, pi: usize, s: Side, w: usize) -> (w2: usize)
        requires
            total_order::<T>(),
            old(self).model().deficit(x, Link::Real(pi)),
            old(self).model().root != x,
            old(self).model().color_of(x) == Color::Black,
            s == old(self).model().side_of(x, pi),
            old(self).model().node(pi).child(s.flip()) == Link::Real(w),
            old(self).model().node(w).color == Color::Red,
        ensures
            final(self).model() == old(self).model().turn_sibling(x, pi),
            final(self).model().deficit(x, Link::Real(pi)),
            final(self).model().root != x,
            final(self).model().color_of(x) == Color::Black,
            s == final(self).model().side_of(x, pi),
            final(self).model().node(pi).child(s.flip()) == Link::Real(w2),
            final(self).model().node(w2).color == Color::Black,
            final(self).model().node(pi).color == Color::Red,
            final(self).model().in_order() == old(self).model().in_order(),
            final(self).model().size() == old(self).model().size(),
            final(self).model().node(pi).parent matches Link::Real(q) && final(self).model().m(
                q,
            ).hi - final(self).model().m(q).lo == old(self).model().m(pi).hi - old(
                self,
            ).model().m(pi).lo,
    {
        let ghost m0 = self.model();
        proof {
            m0.lemma_black_child(x, Link::Real(pi));
            assert(m0.node_ok(pi));
        }
        self.set_color(w, Color::Black);
        self.set_color(pi, Color::Red);
        let ghost m1 = self.model();
        proof {
            assert(m0.painted(m1));
            m0.lemma_painted(m1);
        }
        self.rotate(pi, s);
        proof {
            m1.lemma_rotate(pi, s);
            m0.lemma_red_sibling(m1, self.model(), x, Link::Real(pi));
            self.model().lemma_black_child(x, Link::Real(pi));
        }
        self.child(pi, s.other()).into_node()
    }

    /// The step of the restoring loop for a black sibling `w` with black
    /// children. Returns the parent of `pi`, below which the shortage now
    /// sits.
    fn fix_push_up(&mut self, x: Link, pi: usize, s: Side, w: usize) -> (gp: Link)
        requires
            total_order::<T>(),
            old(self).model().deficit(x, Link::Real(pi)),
            old(self).model().root != x,
            old(self).model().color_of(x) == Color::Black,
            s == old(self).model().side_of(x, pi),
            old(self).model().node(pi).child(s.flip()) == Link::Real(w),
            old(self).model().node(w).color == Color::Black,
            old(self).model().color_of(old(self).model().node(w).left) == Color::Black,
            old(self).model().color_of(old(self).model().node(w).right) == Color::Black,
        ensures
            final(self).model() == old(self).model().push_up(x, pi),
            final(self).model().deficit(Link::Real(pi), gp),
            gp == old(self).model().node(pi).parent,
            final(self).model().in_order() == old(self).model().in_order(),
            final(self).model().size() == old(self).model().size(),
            final(self).model().node(pi).color == old(self).model().node(pi).color,
            gp matches Link::Real(q) ==> final(self).model().m(q).hi - final(self).model().m(q).lo
                > old(self).model().m(pi).hi - old(self).model().m(pi).lo,
            gp matches Link::Real(q) ==> final(self).model().m(q).hi == old(self).model().m(q).hi
                && final(self).model().m(q).lo == old(self).model().m(q).lo,
    {
        let ghost m0 = self.model();
        proof {
            m0.lemma_black_child(x, Link::Real(pi));
            assert(m0.node_ok(pi));
        }
        self.set_color(w, Color::Red);
        self.set_meta(Ghost(pi), Ghost(Meta { bh: m0.m(pi).bh - 1, ..m0.m(pi) }));
        proof {
            m0.lemma_push_up(self.model(), x, Link::Real(pi));
            if let Link::Real(q) = m0.node(pi).parent {
                assert(self.model().m(q).hi == m0.m(q).hi);
            }
        }
        self.parent(pi)
    }

    /// The step of the restoring loop for a black sibling `w` whose near
    /// child is red and whose far child is black. Returns the new sibling
    /// of `x`, which is black with a red far child.
    fn fix_near_red(&mut self, x: Link, pi: usize, s: Side, w: usize) -> (w2: usize)
        requires
            total_order::<T>(),
            old(self).model().deficit(x, Link::Real(pi)),
            old(self).model().root != x,
            old(self).model().color_of(x) == Color::Black,
            s == old(self).model().side_of(x, pi),
            old(self).model().node(pi).child(s.flip()) == Link::Real(w),
            old(self).model().node(w).color == Color::Black,
            old(self).model().color_of(old(self).model().node(w).child(s)) == Color::Red,
            old(self).model().color_of(old(self).model().node(w).child(s.flip())) == Color::Black,
        ensures
            final(self).model() == old(self).model().turn_near(x, pi),
            final(self).model().deficit(x, Link::Real(pi)),
            final(self).model().root != x,
            final(self).model().color_of(x) == Color::Black,
            s == final(self).model().side_of(x, pi),
            final(self).model().node(pi).child(s.flip()) == Link::Real(w2),
            final(self).model().node(w2).color == Color::Black,
            final(self).model().color_of(final(self).model().node(w2).child(s.flip()))
                == Color::Red,
            final(self).model().in_order() == old(self).model().in_order(),
    {
        let ghost m0 = self.model();
        proof {
            m0.lemma_black_child(x, Link::Real(pi));
            assert(m0.node_ok(pi));
            assert(m0.node_ok(w));
        }
        if let Link::Real(near) = self.child(w, s) {
            self.set_color(near, Color::Black);
        }
        self.set_color(w, Color::Red);
        let ghost m1 = self.model();
        proof {
            assert(m0.painted(m1));
            m0.lemma_painted(m1);
        }
        self.rotate(w, s.other());
        proof {
            m1.lemma_rotate(w, s.flip());
            m0.lemma_near_red(m1, self.model(), x, Link::Real(pi));
            self.model().lemma_black_child(x, Link::Real(pi));
        }
        self.child(pi, s.other()).into_node()
    }

    /// The step of the restoring loop for a black sibling `w` whose far
    /// child is red. It ends the loop.
    fn fix_far_red(&mut self, x: Link, pi: usize, s: Side, w: usize)
        requires
            total_order::<T>(),
            old(self).model().deficit(x, Link::Real(pi)),
            old(self).model().root != x,
            old(self).model().color_of(x) == Color::Black,
            s == old(self).model().side_of(x, pi),
            old(self).model().node(pi).child(s.flip()) == Link::Real(w),
            old(self).model().node(w).color == Color::Black,
            old(self).model().color_of(old(self).model().node(w).child(s.flip())) == Color::Red,
        ensures
            final(self).model() == old(self).model().turn_far(x, pi),
            final(self).wf(),
            final(self).model().in_order() == old(self).model().in_order(),
    {
        let ghost m0 = self.model();
        proof {
            m0.lemma_black_child(x, Link::Real(pi));
            assert(m0.node_ok(pi));
            assert(m0.node_ok(w));
        }
        let far = self.child(w, s.other()).into_node();
        let parent_color = self.color(Link::Real(pi));
        self.set_color(w, parent_color);
        self.set_color(pi, Color::Black);
        self.set_color(far, Color::Black);
        self.set_meta(Ghost(pi), Ghost(Meta { bh: m0.m(pi).bh - 1, ..m0.m(pi) }));
        self.set_meta(Ghost(w), Ghost(Meta { bh: m0.m(w).bh + 1, ..m0.m(w) }));
        let ghost m1 = self.model();
        proof {
            assert(m0.painted(m1));
            m0.lemma_painted(m1);
        }
        self.rotate(pi, s);
        proof {
            m1.lemma_rotate(pi, s);
            m0.lemma_far_red(m1, self.model(), x, Link::Real(pi));
        }
    }

    /// Restores the black heights after a black node has been spliced out
    /// from below `parent`, where `node` has taken its place.
    pub(crate) fn delete_fix(&mut self, node: Link, parent: Link)
        requires
            total_order::<T>(),
            old(self).model().deficit(node, parent),
        ensures
            final(self).model() == old(self).model().delete_fix(node, parent),
            final(self).wf(),
            final(self)@ == old(self)@,
    {
        let ghost target = self.model().in_order();
        let ghost goal = self.model().delete_fix(node, parent);
        let ghost mut done = false;
        let mut x = node;
        let mut p = parent;
        loop
            invariant_except_break
                self.model().deficit(x, p),
                goal == self.model().delete_fix(x, p),
                !done,
            invariant
                total_order::<T>(),
                self.model().in_order() == target,
            ensures
                goal == self.model().blacken(x),
                done ==> self.wf() && x == self.model().root,
                !done ==> self.model().deficit(x, p) && (self.model().root == x
                    || self.model().color_of(x) == Color::Red),
            decreases self.model().fix_measure(x, p),
        {
            let ghost m0 = self.model();
            if x == self.root || self.color(x) != Color::Black {
                break ;
            }
            proof {
                m0.lemma_black_child(x, p);
                assert(m0.node_ok(p.index()));
            }
            let pi = p.into_node();
            let s = if x == self.child(pi, Side::Left) {
                Side::Left
            } else {
                Side::Right
            };
            let mut w = self.child(pi, s.other()).into_node();
            if self.color(Link::Real(w)) == Color::Red {
                w = self.fix_red_sibling(x, pi, s, w);
            }
            let ghost m2 = self.model();
            proof {
                m2.lemma_black_child(x, p);
                assert(m2.node_ok(w));
            }
            if self.color(self.child(w, Side::Left)) == Color::Black && self.color(
                self.child(w, Side::Right),
            ) == Color::Black {
                p = self.fix_push_up(x, pi, s, w);
                x = Link::Real(pi);
                proof {
                    if let Link::Real(q) = p {
                        assert(self.model().node_ok(q));
                    }
                }
            } else {
                if self.color(self.child(w, s.other())) == Color::Black {
                    w = self.fix_near_red(x, pi, s, w);
                }
                self.fix_far_red(x, pi, s, w);
                proof {
                    done = true;
                }
                x = self.root;
                break ;
            }
        }
        let ghost m = self.model();
        if let Link::Real(xi) = x {
            proof {
                if done {
                    assert(m.node_ok(xi));
                }
            }
            self.set_color(xi, Color::Black);
            proof {
                if done {
                    assert(m.node(xi).color == Color::Black);
                    assert(self.model().nodes =~= m.nodes);
                    assert(self.model() =~= m);
                } else {
                    m.lemma_absorb(self.model(), x, p);
                }
            }
        } else {
            proof {
                if !done {
                    m.lemma_absorb(self.model(), x, p);
                }
            }
        }
    }

    /// Takes node `s` out of the tree, links its only child in its place
    /// and moves its value to `d`. Returns that child, the former parent of
    /// `s`, and the colour of `s`.
    fn splice(&mut self, s: usize, d: usize) -> (out: (Link, Link, Color))
        requires
            old(self).model().structure_ok(),
            old(self).model().splice_ok(s, d),
        ensures
            final(self).model() == old(self).model().splice(s, d),
            out.0 == old(self).model().only_child(s),
            out.1 == old(self).model().node(s).parent,
            out.2 == old(self).model().node(s).color,
    {
        let ghost m = self.model();
        proof {
            assert(m.node_ok(s));
            assert(m.node_ok(d));
            m.lemma_splice_structure(s, d);
        }
        let c = if let Link::Real(left) = self.nodes[s].left {
            Link::Real(left)
        } else {
            self.nodes[s].right
        };
        let p = self.nodes[s].parent;
        if let Link::Real(ci) = c {
            self.set_parent(ci, p);
        }
        match p {
            Link::Real(pi) => {
                if self.nodes[pi].left == Link::Real(s) {
                    self.set_left(pi, c);
                } else {
                    self.set_right(pi, c);
                }
            },
            Link::Nil => {
                self.set_root(c);
            },
        }
        let ghost m2 = self.model();
        proof {
            assert(m2.node(s) == m.node(s));
        }
        if s != d {
            let v = self.nodes[s].value;
            self.set_value(d, v);
        }
        let ghost m3 = self.model();
        let color = self.nodes[s].color;
        self.release(s, Ghost(m.m(s).rank));
        proof {
            let r = m.splice(s, d);
            assert(m3.meta == m.meta);
            assert(self.model().nodes == r.nodes);
            assert(self.model().free == r.free);
            assert(self.model().order == r.order);
            assert(self.model().meta =~= r.meta);
            assert(self.model().root == r.root);
        }
        (c, p, color)
    }

    /// Removes one value equal to `element`, if the tree holds one, and
    /// says whether it did.
    pub fn delete(&mut self, element: &T) -> (removed: bool)
        requires
            old(self).wf(),
        ensures
            final(self).wf(),
            final(self).model() == old(self).model().deleted(*element),
            removed == old(self)@.contains(*element),
            final(self)@ == old(self)@.remove_value(*element),
            !removed ==> final(self).model() == old(self).model(),
    {
        let ghost m = self.model();
        proof {
            m.in_order().index_of_first_ensures(*element);
        }
        let d = match self.unsafe_search(element) {
            None => {
                return false;
            },
            Some(d) => d,
        };
        proof {
            assert(m.node_ok(d));
            assert(m.in_order()[m.m(d).rank] == *element);
            assert(sorted(m.in_order())) by {
                assert forall|a: int, b: int| 0 <= a < b < m.in_order().len() implies le(
                    #[trigger] m.in_order()[a],
                    #[trigger] m.in_order()[b],
                ) by {
                    assert(le(m.value_at(a), m.value_at(b)));
                }
            }
            lemma_remove_any(m.in_order(), *element, m.m(d).rank);
        }
        let s = if self.nodes[d].left.is_nil() || self.nodes[d].right.is_nil() {
            d
        } else {
            self.in_order_successor(d)
        };
        proof {
            assert(m.node_ok(s));
            assert(m.splice_ok(s, d));
            m.lemma_splice(s, d);
        }
        let (c, p, color) = self.splice(s, d);
        if color == Color::Black {
            self.delete_fix(c, p);
        }
        true
    }
}

} // verus!
