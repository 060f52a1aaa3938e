//! Insertion: attach a red leaf, then restore the colour rules upwards.

use vstd::prelude::*;
use crate::order::{le, lemma_rank_after, lemma_transitive, lemma_trichotomy, less, lt, rank_after, total_order};
use crate::sequences::insert_sorted;
use crate::rbtree::{Color, Link, Node, RBTree};
use crate::rbtree::model::{Meta, Model, Side};

verus! {

impl Meta {
    /// The record after a new value has entered the order at position `g`.
    pub open spec fn shift_up(self, g: int) -> Meta {
        Meta {
            rank: if self.rank >= g { self.rank + 1 } else { self.rank },
            lo: if self.lo > g { self.lo + 1 } else { self.lo },
            hi: if self.hi >= g { self.hi + 1 } else { self.hi },
            ..self
        }
    }
}

impl<T> Model<T> {
    /// The slot that the next new node takes: the last free one, or a new
    /// one at the end of the table.
    pub open spec fn fresh(self) -> usize {
        if self.free.len() > 0 {
            self.free.last()
        } else {
            self.nodes.len() as usize
        }
    }

    /// The table after a red leaf with value `e` has been hung below
    /// `parent` on side `s`, at position `g` of the order.
    pub open spec fn attach(self, e: T, parent: Link, s: Side, g: int) -> Model<T> {
        let z = self.fresh();
        let node = Node { value: e, color: Color::Red, left: Link::Nil, right: Link::Nil, parent };
        let zmeta = Meta { live: true, rank: g, lo: g, hi: g + 1, bh: 0 };
        let shifted = Seq::new(self.meta.len(), |i: int| self.meta[i].shift_up(g));
        let m1 = if self.free.len() > 0 {
            Model {
                nodes: self.nodes.update(z as int, node),
                free: self.free.drop_last(),
                meta: shifted.update(z as int, zmeta),
                order: self.order.insert(g, z),
                ..self
            }
        } else {
            Model {
                nodes: self.nodes.push(node),
                meta: shifted.push(zmeta),
                order: self.order.insert(g, z),
                ..self
            }
        };
        match parent {
            Link::Real(p) => m1.set_child(p, s, Link::Real(z)),
            Link::Nil => m1.set_root(Link::Real(z)),
        }
    }

    /// A link of `parent` on side `s` is free to take a new leaf at
    /// position `g`.
    pub open spec fn open_at(self, parent: Link, s: Side, g: int) -> bool {
        match parent {
            Link::Real(p) => {
                &&& self.is_node(p)
                &&& self.node(p).child(s) == Link::Nil
                &&& g == (match s {
                    Side::Left => self.m(p).rank,
                    Side::Right => self.m(p).rank + 1,
                })
            },
            Link::Nil => self.root == Link::Nil && g == 0,
        }
    }

    /// A subtree that ends just before position `g` hangs in the left
    /// subtree of the node at position `g`.
    pub proof fn lemma_successor_has_left(self, q: usize, g: int)
        requires
            self.structure_ok(),
            self.is_node(q),
            self.m(q).hi == g,
            g < self.size(),
        ensures
            self.node(self.order[g]).left != Link::Nil,
        decreases self.size() - (self.m(q).hi - self.m(q).lo),
    {
        assert(self.node_ok(q));
        match self.node(q).parent {
            Link::Nil => {},
            Link::Real(p) => {
                assert(self.node_ok(p));
                if self.node(p).left == Link::Real(q) {
                } else {
                    self.lemma_successor_has_left(p, g);
                }
            },
        }
    }

    /// A subtree that starts at position `g` hangs in the right subtree of
    /// the node at position `g - 1`.
    pub proof fn lemma_predecessor_has_right(self, q: usize, g: int)
        requires
            self.structure_ok(),
            self.is_node(q),
            self.m(q).lo == g,
            g > 0,
        ensures
            self.node(self.order[g - 1]).right != Link::Nil,
        decreases self.size() - (self.m(q).hi - self.m(q).lo),
    {
        assert(self.node_ok(q));
        match self.node(q).parent {
            Link::Nil => {},
            Link::Real(p) => {
                assert(self.node_ok(p));
                if self.node(p).right == Link::Real(q) {
                } else {
                    self.lemma_predecessor_has_right(p, g);
                }
            },
        }
    }

    /// `r` is the table `self` with the leaf `z` hung below `parent`, slot
    /// by slot.
    pub open spec fn attached(self, r: Model<T>, z: usize, e: T, parent: Link, s: Side, g: int) -> bool {
        &&& !self.is_node(z)
        &&& (z as int) < r.nodes.len()
        &&& r.nodes.len() >= self.nodes.len()
        &&& r.meta.len() == r.nodes.len()
        &&& self.meta.len() == self.nodes.len()
        &&& r.nil == self.nil
        &&& 0 <= g <= self.size()
        &&& r.order == self.order.insert(g, z)
        &&& r.root == (if parent == Link::Nil { Link::Real(z) } else { self.root })
        &&& r.node(z) == (Node {
            value: e,
            color: Color::Red,
            left: Link::Nil,
            right: Link::Nil,
            parent,
        })
        &&& r.m(z) == (Meta { live: true, rank: g, lo: g, hi: g + 1, bh: 0 })
        &&& (parent matches Link::Real(p) ==> p != z && r.node(p) == (match s {
            Side::Left => Node { left: Link::Real(z), ..self.node(p) },
            Side::Right => Node { right: Link::Real(z), ..self.node(p) },
        }))
        &&& forall|i: usize|
            (i as int) < self.nodes.len() && i != z ==> #[trigger] r.m(i) == self.m(i).shift_up(g)
        &&& forall|i: usize|
            (i as int) < self.nodes.len() && i != z && Link::Real(i) != parent ==> #[trigger] r.node(
                i,
            ) == self.node(i)
    }

    /// The table after a leaf has been hung in, slot by slot.
    proof fn lemma_attach_links(self, e: T, parent: Link, s: Side, g: int)
        requires
            self.structure_ok(),
            self.open_at(parent, s, g),
            self.free.len() > 0 || self.nodes.len() < usize::MAX,
        ensures
            self.attached(self.attach(e, parent, s, g), self.fresh(), e, parent, s, g),
    {
        let z = self.fresh();
        let r = self.attach(e, parent, s, g);
        if self.free.len() > 0 {
            assert(self.free[self.free.len() - 1] == z);
        }
        if let Link::Real(p) = parent {
            assert(self.node_ok(p));
        }
    }

    /// After a leaf has been hung in, the order lists every node at its
    /// position.
    proof fn lemma_attached_order(self, r: Model<T>, z: usize, e: T, parent: Link, s: Side, g: int)
        requires
            self.structure_ok(),
            self.attached(r, z, e, parent, s, g),
        ensures
            r.order_ok(),
            forall|i: usize| self.is_node(i) ==> r.order[#[trigger] r.m(i).rank] == i,
    {
        assert forall|k: int| 0 <= k < r.order.len() implies r.is_node(#[trigger] r.order[k])
            && r.m(r.order[k]).rank == k by {
            if k < g {
                assert(r.order[k] == self.order[k]);
                assert(self.is_node(self.order[k]));
            } else if k == g {
            } else {
                assert(r.order[k] == self.order[k - 1]);
                assert(self.is_node(self.order[k - 1]));
            }
        }
        assert forall|i: usize| self.is_node(i) implies r.order[#[trigger] r.m(i).rank] == i by {
            assert(self.node_ok(i));
            let rk = self.m(i).rank;
            if rk >= g {
                assert(r.order[rk + 1] == self.order[rk]);
            } else {
                assert(r.order[rk] == self.order[rk]);
            }
        }
    }

    /// After a leaf has been hung in, the left link of an old node is
    /// consistent.
    proof fn lemma_attached_left_ok(
        self,
        r: Model<T>,
        z: usize,
        e: T,
        parent: Link,
        s: Side,
        g: int,
        i: usize,
    )
        requires
            self.structure_ok(),
            self.open_at(parent, s, g),
            self.attached(r, z, e, parent, s, g),
            self.is_node(i),
        ensures
            r.left_ok(i),
    {
        assert(self.node_ok(i));
        if let Link::Real(l) = self.node(i).left {
            assert(self.node_ok(l));
        }
        if let Link::Real(p) = parent {
            assert(self.node_ok(p));
        }
        if self.node(i).left == Link::Nil && self.m(i).rank == g && g > 0 {
            if !(Link::Real(i) == parent && s == Side::Left) {
                self.lemma_predecessor_has_right(i, g);
                assert(self.is_node(self.order[g - 1]));
                assert(self.node_ok(self.order[g - 1]));
            }
        }
    }

    /// After a leaf has been hung in, the right link of an old node is
    /// consistent.
    proof fn lemma_attached_right_ok(
        self,
        r: Model<T>,
        z: usize,
        e: T,
        parent: Link,
        s: Side,
        g: int,
        i: usize,
    )
        requires
            self.structure_ok(),
            self.open_at(parent, s, g),
            self.attached(r, z, e, parent, s, g),
            self.is_node(i),
        ensures
            r.right_ok(i),
    {
        assert(self.node_ok(i));
        if let Link::Real(l) = self.node(i).right {
            assert(self.node_ok(l));
        }
        if let Link::Real(p) = parent {
            assert(self.node_ok(p));
        }
        if self.node(i).right == Link::Nil && self.m(i).rank == g - 1 && g < self.size() {
            if !(Link::Real(i) == parent && s == Side::Right) {
                self.lemma_successor_has_left(i, g);
                assert(self.is_node(self.order[g]));
                assert(self.node_ok(self.order[g]));
            }
        }
    }

    /// After a leaf has been hung in, the parent link of an old node is
    /// consistent.
    proof fn lemma_attached_parent_ok(
        self,
        r: Model<T>,
        z: usize,
        e: T,
        parent: Link,
        s: Side,
        g: int,
        i: usize,
    )
        requires
            self.structure_ok(),
            self.open_at(parent, s, g),
            self.attached(r, z, e, parent, s, g),
            self.is_node(i),
        ensures
            r.parent_ok(i),
    {
        assert(self.node_ok(i));
        if let Link::Real(q) = self.node(i).parent {
            assert(self.node_ok(q));
        }
        if let Link::Real(p) = parent {
            assert(self.node_ok(p));
        }
    }

    /// Hanging a leaf into a free link keeps the table one tree.
    pub proof fn lemma_attach_structure(self, e: T, parent: Link, s: Side, g: int)
        requires
            self.structure_ok(),
            self.open_at(parent, s, g),
            self.free.len() > 0 || self.nodes.len() < usize::MAX,
        ensures
            self.attach(e, parent, s, g).structure_ok(),
            self.attached(self.attach(e, parent, s, g), self.fresh(), e, parent, s, g),
    {
        let z = self.fresh();
        let r = self.attach(e, parent, s, g);
        self.lemma_attach_links(e, parent, s, g);
        self.lemma_attached_order(r, z, e, parent, s, g);
        if let Link::Real(p) = parent {
            assert(self.node_ok(p));
        }
        assert forall|i: usize| r.is_node(i) implies #[trigger] r.node_ok(i) by {
            if i == z {
                assert(r.order[g] == z);
                assert(r.left_ok(i));
                assert(r.right_ok(i));
                assert(r.parent_ok(i));
            } else {
                if (i as int) < self.nodes.len() {
                    assert(r.m(i) == self.m(i).shift_up(g));
                } else {
                    assert(self.free.len() == 0);
                }
                assert(self.is_node(i));
                assert(self.node_ok(i));
                self.lemma_attached_left_ok(r, z, e, parent, s, g, i);
                self.lemma_attached_right_ok(r, z, e, parent, s, g, i);
                self.lemma_attached_parent_ok(r, z, e, parent, s, g, i);
                assert(r.order[r.m(i).rank] == i);
            }
        }
        assert(r.root_ok()) by {
            if let Link::Real(rt) = self.root {
                assert(r.m(rt) == self.m(rt).shift_up(g));
            }
        }
        assert(r.free_ok()) by {
            assert forall|j: int| 0 <= j < r.free.len() implies (#[trigger] r.free[j] as int)
                < r.nodes.len() && !r.m(r.free[j]).live by {
                assert(r.free[j] == self.free[j]);
                assert((self.free[j] as int) < self.nodes.len());
                assert(r.m(self.free[j]) == self.m(self.free[j]).shift_up(g));
            }
            assert forall|j: int, k: int| 0 <= j < k < r.free.len() implies r.free[j]
                != r.free[k] by {
                assert(r.free[j] == self.free[j]);
                assert(r.free[k] == self.free[k]);
            }
        }
    }
}

impl<T: Ord> Model<T> {
    /// The free link at which a descent for the place of `e` from `l` ends,
    /// as the parent and the side: at each node it goes left where `e` is
    /// below the node's value and right otherwise. `p` and `s` say where
    /// `l` itself hangs.
    pub open spec fn hang(self, l: Link, p: Link, s: Side, e: T) -> (Link, Side)
        decreases self.span(l),
        when self.structure_ok() && self.link_ok(l)
    {
        match l {
            Link::Nil => (p, s),
            Link::Real(i) => {
                proof {
                    assert(self.node_ok(i));
                }
                if lt(e, self.node(i).value) {
                    self.hang(self.node(i).left, l, Side::Left, e)
                } else {
                    self.hang(self.node(i).right, l, Side::Right, e)
                }
            },
        }
    }

    /// The parent of the parent of `x`.
    pub open spec fn grandparent(self, x: usize) -> usize {
        self.node(self.node(x).parent.index()).parent.index()
    }

    /// The side of its own parent on which the parent of `x` hangs.
    pub open spec fn parent_side(self, x: usize) -> Side {
        self.side_of(self.node(x).parent, self.grandparent(x))
    }

    /// The sibling of the parent of `x`.
    pub open spec fn uncle(self, x: usize) -> Link {
        self.node(self.grandparent(x)).child(self.parent_side(x).flip())
    }

    /// The step for a red uncle: parent and uncle turn black, the
    /// grandparent turns red.
    pub open spec fn raise_red(self, x: usize) -> Model<T> {
        let p = self.node(x).parent.index();
        let g = self.grandparent(x);
        self.set_color(p, Color::Black).set_color(self.uncle(x).index(), Color::Black).set_color(
            g,
            Color::Red,
        ).set_meta(g, Meta { bh: self.m(g).bh + 1, ..self.m(g) })
    }

    /// The step for a black uncle: where `x` hangs on the inner side of
    /// its parent, a rotation at the parent brings it to the outer side;
    /// then the parent turns black, the grandparent turns red and moves
    /// down to the uncle's side.
    pub open spec fn settle(self, x: usize) -> Model<T> {
        let p = self.node(x).parent.index();
        let s = self.parent_side(x);
        let inner = self.node(p).child(s.flip()) == Link::Real(x);
        let m1 = if inner {
            self.rotate(p, s)
        } else {
            self
        };
        let xa = if inner {
            p
        } else {
            x
        };
        let pa = m1.node(xa).parent.index();
        let ga = m1.node(pa).parent.index();
        m1.set_color(pa, Color::Black).set_color(ga, Color::Red).rotate(ga, s.flip())
    }

    /// The table after the colour rules have been restored from the red
    /// node `x` upwards: while `x` hangs below a red parent, a red uncle
    /// passes the task on to the grandparent, and a black uncle ends it
    /// with one or two rotations.
    pub open spec fn insert_fix(self, x: usize) -> Model<T>
        decreases self.size() - self.span(Link::Real(x)),
        when self.red_at(x)
        via Self::insert_fix_decreases
    {
        if self.root == Link::Real(x) || self.color_of(self.node(x).parent) != Color::Red {
            self
        } else if self.color_of(self.uncle(x)) == Color::Red {
            self.raise_red(x).insert_fix(self.grandparent(x))
        } else {
            self.settle(x)
        }
    }

    /// The grandparent covers more positions than `x`.
    #[via_fn]
    proof fn insert_fix_decreases(self, x: usize) {
        if !(self.root == Link::Real(x) || self.color_of(self.node(x).parent) != Color::Red) {
            self.lemma_red_parent(x);
            let g = self.grandparent(x);
            let r = self.raise_red(x);
            assert(self.node_ok(g));
            assert(self.node_ok(x));
            assert(r.size() == self.size());
            assert(r.m(g).hi == self.m(g).hi);
            assert(r.m(g).lo == self.m(g).lo);
        }
    }

    /// The table after `e` has been inserted: a red leaf hung at the end
    /// of the descent, the colour rules restored, the root black.
    pub open spec fn inserted(self, e: T) -> Model<T> {
        let at = self.hang(self.root, Link::Nil, Side::Left, e);
        let hung = self.attach(e, at.0, at.1, rank_after(self.in_order(), e));
        let fixed = hung.insert_fix(self.fresh());
        fixed.set_color(fixed.root.index(), Color::Black)
    }

    /// A descent for the place of `e` that found `e` below the value of `c`
    /// goes on in the left subtree.
    pub proof fn lemma_place_left(self, e: T, c: usize, lo: int, hi: int)
        requires
            self.wf(),
            total_order::<T>(),
            self.is_node(c),
            self.slot(e, lo, hi),
            self.m(c).lo == lo,
            self.m(c).hi == hi,
            lt(e, self.node(c).value),
        ensures
            self.slot(e, lo, self.m(c).rank),
            self.covers(self.node(c).left, lo, self.m(c).rank),
    {
        assert(self.node_ok(c));
        let r = self.m(c).rank;
        assert(self.value_at(r) == self.node(c).value);
        assert forall|k: int| r <= k < self.size() implies lt(e, #[trigger] self.value_at(k)) by {
            if r < k {
                lemma_transitive(e, self.value_at(r), self.value_at(k));
            }
        }
    }

    /// A descent for the place of `e` that found `e` not below the value of
    /// `c` goes on in the right subtree.
    pub proof fn lemma_place_right(self, e: T, c: usize, lo: int, hi: int)
        requires
            self.wf(),
            total_order::<T>(),
            self.is_node(c),
            self.slot(e, lo, hi),
            self.m(c).lo == lo,
            self.m(c).hi == hi,
            !lt(e, self.node(c).value),
        ensures
            self.slot(e, self.m(c).rank + 1, hi),
            self.covers(self.node(c).right, self.m(c).rank + 1, hi),
    {
        assert(self.node_ok(c));
        let r = self.m(c).rank;
        assert(self.value_at(r) == self.node(c).value);
        lemma_trichotomy(self.value_at(r), e);
        assert forall|k: int| 0 <= k < r + 1 implies le(#[trigger] self.value_at(k), e) by {
            if k < r {
                lemma_transitive(self.value_at(k), self.value_at(r), e);
            }
        }
    }

    /// The values of the table after a leaf has been hung in.
    proof fn lemma_attached_values(self, r: Model<T>, z: usize, e: T, parent: Link, s: Side, g: int)
        requires
            self.structure_ok(),
            self.open_at(parent, s, g),
            self.attached(r, z, e, parent, s, g),
        ensures
            r.in_order() == self.in_order().insert(g, e),
            forall|k: int| 0 <= k < g ==> #[trigger] r.value_at(k) == self.value_at(k),
            r.value_at(g) == e,
            forall|k: int| g < k <= self.size() ==> #[trigger] r.value_at(k) == self.value_at(k - 1),
    {
        if let Link::Real(p) = parent {
            assert(self.node_ok(p));
        }
        assert forall|k: int| 0 <= k < g implies #[trigger] r.value_at(k) == self.value_at(k) by {
            assert(r.order[k] == self.order[k]);
            assert(self.is_node(self.order[k]));
        }
        assert forall|k: int| g < k <= self.size() implies #[trigger] r.value_at(k)
            == self.value_at(k - 1) by {
            assert(r.order[k] == self.order[k - 1]);
            assert(self.is_node(self.order[k - 1]));
        }
        assert(r.order[g] == z);
        assert(r.in_order() =~= self.in_order().insert(g, e));
    }

    /// Hanging a red leaf into the place that a descent found leaves a
    /// table that breaks the colour rules at the leaf alone.
    pub proof fn lemma_attach(self, e: T, parent: Link, s: Side, g: int)
        requires
            self.wf(),
            total_order::<T>(),
            self.open_at(parent, s, g),
            self.slot(e, g, g),
            self.free.len() > 0 || self.nodes.len() < usize::MAX,
        ensures
            self.attach(e, parent, s, g).red_at(self.fresh()),
            self.attach(e, parent, s, g).in_order() == self.in_order().insert(g, e),
            self.attach(e, parent, s, g).node(self.fresh()).value == e,
    {
        let z = self.fresh();
        let r = self.attach(e, parent, s, g);
        self.lemma_attach_structure(e, parent, s, g);
        self.lemma_attached_values(r, z, e, parent, s, g);
        if let Link::Real(p) = parent {
            assert(self.node_ok(p));
        }
        assert forall|a: int, b: int| 0 <= a < b < r.size() implies le(
            #[trigger] r.value_at(a),
            #[trigger] r.value_at(b),
        ) by {
            if b < g {
                assert(le(self.value_at(a), self.value_at(b)));
            } else if b == g {
                assert(le(self.value_at(a), e));
            } else if a < g {
                assert(le(self.value_at(a), self.value_at(b - 1)));
            } else if a == g {
                assert(lt(e, self.value_at(b - 1)));
            } else {
                assert(le(self.value_at(a - 1), self.value_at(b - 1)));
            }
        }
        assert forall|i: usize| r.is_node(i) implies #[trigger] r.bh_ok(i) by {
            if i != z {
                assert(self.is_node(i));
                assert(self.bh_ok(i));
                assert(self.node_ok(i));
            }
        }
        assert forall|i: usize| r.is_node(i) implies #[trigger] r.rr_ok_except(
            i,
            Link::Real(z),
        ) by {
            if i != z {
                assert(self.is_node(i));
                assert(self.rr_ok(i));
                assert(self.node_ok(i));
            }
        }
    }

    /// While the red node `x` is not the root and hangs below a red parent,
    /// that parent is no root either, the grandparent is black, and the
    /// sibling of `x` is black.
    pub proof fn lemma_red_parent(self, x: usize)
        requires
            self.red_at(x),
            self.root != Link::Real(x),
            self.color_of(self.node(x).parent) == Color::Red,
        ensures
            ({
                let p = self.node(x).parent.index();
                let g = self.node(p).parent.index();
                &&& self.node(x).parent == Link::Real(p)
                &&& self.node(p).parent == Link::Real(g)
                &&& self.is_node(p)
                &&& self.is_node(g)
                &&& p != x && g != x && g != p
                &&& self.node(g).color == Color::Black
                &&& (self.node(g).left == Link::Real(p) || self.node(g).right == Link::Real(p))
                &&& self.node(g).left != self.node(g).right
                &&& self.m(g).hi - self.m(g).lo > self.m(x).hi - self.m(x).lo
            }),
    {
        assert(self.node_ok(x));
        let p = self.node(x).parent.index();
        assert(self.node_ok(p));
        let g = self.node(p).parent.index();
        assert(self.node_ok(g));
        assert(self.rr_ok_except(g, Link::Real(x)));
        if let Link::Real(l) = self.node(g).left {
            assert(self.node_ok(l));
        }
    }

    /// The step with a red uncle: parent and uncle turn black, the
    /// grandparent turns red and takes the place of `x`.
    pub proof fn lemma_red_uncle(self, r: Model<T>, x: usize, s: Side)
        requires
            self.red_at(x),
            self.root != Link::Real(x),
            self.color_of(self.node(x).parent) == Color::Red,
            self.node(self.node(self.node(x).parent.index()).parent.index()).child(s)
                == self.node(x).parent,
            self.color_of(
                self.node(self.node(self.node(x).parent.index()).parent.index()).child(s.flip()),
            ) == Color::Red,
            ({
                let p = self.node(x).parent.index();
                let g = self.node(p).parent.index();
                let u = self.node(g).child(s.flip()).index();
                r == self.set_color(p, Color::Black).set_color(u, Color::Black).set_color(
                    g,
                    Color::Red,
                ).set_meta(g, Meta { bh: self.m(g).bh + 1, ..self.m(g) })
            }),
        ensures
            r.red_at(self.node(self.node(x).parent.index()).parent.index()),
            r.in_order() == self.in_order(),
    {
        let p = self.node(x).parent.index();
        let g = self.node(p).parent.index();
        let u = self.node(g).child(s.flip()).index();
        self.lemma_red_parent(x);
        assert(self.node_ok(x));
        assert(self.node_ok(p));
        assert(self.node_ok(g));
        assert(self.node_ok(u));
        assert(self.painted(r));
        self.lemma_painted(r);
        assert(r.sorted()) by {
            assert forall|a: int, b: int| 0 <= a < b < r.size() implies le(
                #[trigger] r.value_at(a),
                #[trigger] r.value_at(b),
            ) by {
                assert(le(self.value_at(a), self.value_at(b)));
            }
        }
        assert forall|i: usize| r.is_node(i) implies #[trigger] r.bh_ok(i) by {
            assert(self.is_node(i));
            assert(self.bh_ok(i));
            assert(self.node_ok(i));
        }
        assert forall|i: usize| r.is_node(i) implies #[trigger] r.rr_ok_except(
            i,
            Link::Real(g),
        ) by {
            assert(self.is_node(i));
            assert(self.rr_ok_except(i, Link::Real(x)));
            assert(self.node_ok(i));
        }
        assert(r.rr_ok(g));
    }

    /// The step with a black uncle where `x` hangs on the inner side of its
    /// parent: rotating at the parent puts the parent below `x`, on the
    /// outer side.
    pub proof fn lemma_straighten(self, r: Model<T>, x: usize, s: Side)
        requires
            self.red_at(x),
            self.root != Link::Real(x),
            self.color_of(self.node(x).parent) == Color::Red,
            ({
                let p = self.node(x).parent.index();
                let g = self.node(p).parent.index();
                &&& self.node(g).child(s) == Link::Real(p)
                &&& self.color_of(self.node(g).child(s.flip())) == Color::Black
                &&& self.node(p).child(s.flip()) == Link::Real(x)
                &&& self.rotated(r, p, s)
            }),
        ensures
            ({
                let p = self.node(x).parent.index();
                let g = self.node(p).parent.index();
                &&& r.red_at(p)
                &&& r.root != Link::Real(p)
                &&& r.node(p).parent == Link::Real(x)
                &&& r.node(x).parent == Link::Real(g)
                &&& r.node(x).color == Color::Red
                &&& r.node(g).child(s) == Link::Real(x)
                &&& r.node(x).child(s) == Link::Real(p)
                &&& r.color_of(r.node(g).child(s.flip())) == Color::Black
                &&& r.in_order() == self.in_order()
            }),
    {
        let p = self.node(x).parent.index();
        let g = self.node(p).parent.index();
        let b = self.node(x).child(s);
        self.lemma_red_parent(x);
        assert(self.node_ok(x));
        assert(self.node_ok(p));
        assert(self.node_ok(g));
        if let Link::Real(bi) = b {
            assert(self.node_ok(bi));
        }
        if let Link::Real(u) = self.node(g).child(s.flip()) {
            assert(self.node_ok(u));
        }
        r.lemma_same_content_values(self);
        assert(r.sorted()) by {
            assert forall|a: int, b: int| 0 <= a < b < r.size() implies le(
                #[trigger] r.value_at(a),
                #[trigger] r.value_at(b),
            ) by {
                assert(le(self.value_at(a), self.value_at(b)));
            }
        }
        assert(self.bh_ok(x));
        assert(self.bh_ok(p));
        assert(self.bh_ok(g));
        assert(self.rr_ok_except(p, Link::Real(x)));
        assert forall|i: usize| r.is_node(i) implies #[trigger] r.bh_ok(i) by {
            assert(self.is_node(i));
            assert(self.bh_ok(i));
            assert(self.node_ok(i));
            if i == x {
            } else if i == p {
            } else if Link::Real(i) == b {
            } else if i == g {
            } else {
                assert(r.node(i) == self.node(i));
            }
        }
        assert forall|i: usize| r.is_node(i) implies #[trigger] r.rr_ok_except(
            i,
            Link::Real(p),
        ) by {
            assert(self.is_node(i));
            assert(self.rr_ok_except(i, Link::Real(x)));
            assert(self.node_ok(i));
            if i == x {
            } else if i == p {
            } else if Link::Real(i) == b {
            } else if i == g {
            } else {
                assert(r.node(i) == self.node(i));
            }
        }
        assert(r.rr_ok(p));
    }

    /// The step with a black uncle where `x` hangs on the outer side of its
    /// parent: the parent turns black, the grandparent turns red and moves
    /// down to the uncle's side. The colour rules hold again.
    pub proof fn lemma_lift_parent(self, m1: Model<T>, r: Model<T>, x: usize, s: Side)
        requires
            self.red_at(x),
            self.root != Link::Real(x),
            self.color_of(self.node(x).parent) == Color::Red,
            ({
                let p = self.node(x).parent.index();
                let g = self.node(p).parent.index();
                &&& self.node(g).child(s) == Link::Real(p)
                &&& self.color_of(self.node(g).child(s.flip())) == Color::Black
                &&& self.node(p).child(s) == Link::Real(x)
                &&& m1 == self.set_color(p, Color::Black).set_color(g, Color::Red)
                &&& m1.rotated(r, g, s.flip())
            }),
        ensures
            r.wf(),
            r.in_order() == self.in_order(),
            r.is_node(x),
    {
        let p = self.node(x).parent.index();
        let g = self.node(p).parent.index();
        let b = self.node(p).child(s.flip());
        let u = self.node(g).child(s.flip());
        let gp = self.node(g).parent;
        self.lemma_red_parent(x);
        assert(self.node_ok(x));
        assert(self.node_ok(p));
        assert(self.node_ok(g));
        if let Link::Real(bi) = b {
            assert(self.node_ok(bi));
        }
        if let Link::Real(ui) = u {
            assert(self.node_ok(ui));
        }
        if let Link::Real(q) = gp {
            assert(self.node_ok(q));
        }
        assert(self.painted(m1));
        self.lemma_painted(m1);
        r.lemma_same_content_values(m1);
        assert(r.sorted()) by {
            assert forall|a: int, b: int| 0 <= a < b < r.size() implies le(
                #[trigger] r.value_at(a),
                #[trigger] r.value_at(b),
            ) by {
                assert(le(self.value_at(a), self.value_at(b)));
            }
        }
        assert(self.bh_ok(x));
        assert(self.bh_ok(p));
        assert(self.bh_ok(g));
        assert(self.rr_ok_except(p, Link::Real(x)));
        assert forall|i: usize| (i as int) < self.nodes.len() implies #[trigger] r.m(i).bh
            == self.m(i).bh by {
            assert(m1.m(i).bh == self.m(i).bh);
        }
        assert forall|i: usize| (i as int) < self.nodes.len() && i != p && i != g implies (
        #[trigger] r.node(i)).color == self.node(i).color by {
            assert(m1.node(i).color == self.node(i).color);
        }
        assert(r.node(p).color == Color::Black);
        assert(r.node(g).color == Color::Red);
        assert forall|i: usize| r.is_node(i) implies #[trigger] r.bh_ok(i) by {
            assert(self.is_node(i));
            assert(self.bh_ok(i));
            assert(self.node_ok(i));
            if i == x {
                assert(r.node(i) == m1.node(i));
            } else if i == p {
            } else if Link::Real(i) == b {
            } else if i == g {
            } else if Link::Real(i) == gp {
            } else {
                assert(r.node(i) == m1.node(i));
            }
        }
        assert forall|i: usize| r.is_node(i) implies #[trigger] r.rr_ok(i) by {
            assert(self.is_node(i));
            assert(self.rr_ok_except(i, Link::Real(x)));
            assert(self.node_ok(i));
            if i == x {
                assert(r.node(i) == m1.node(i));
            } else if i == p {
            } else if Link::Real(i) == b {
            } else if i == g {
            } else if Link::Real(i) == gp {
            } else {
                assert(r.node(i) == m1.node(i));
            }
        }
        assert(r.root_black());
    }

    /// Once the red node `x` is the root or hangs below a black parent,
    /// a black root is all that the colour rules still ask for.
    pub proof fn lemma_blacken_root(self, r: Model<T>, x: usize)
        requires
            self.red_at(x),
            self.root == Link::Real(x) || self.color_of(self.node(x).parent) == Color::Black,
            r == self.set_color(self.root.index(), Color::Black),
        ensures
            r.wf(),
            r.in_order() == self.in_order(),
            r.is_node(x),
    {
        let rt = self.root.index();
        assert(self.node_ok(x));
        assert(self.node_ok(rt));
        assert(self.painted(r));
        self.lemma_painted(r);
        assert(r.sorted()) by {
            assert forall|a: int, b: int| 0 <= a < b < r.size() implies le(
                #[trigger] r.value_at(a),
                #[trigger] r.value_at(b),
            ) by {
                assert(le(self.value_at(a), self.value_at(b)));
            }
        }
        assert forall|i: usize| r.is_node(i) implies #[trigger] r.bh_ok(i) by {
            assert(self.is_node(i));
            assert(self.bh_ok(i));
            assert(self.node_ok(i));
        }
        assert forall|i: usize| r.is_node(i) implies #[trigger] r.rr_ok(i) by {
            assert(self.is_node(i));
            assert(self.rr_ok_except(i, Link::Real(x)));
            assert(self.node_ok(i));
        }
    }
}

impl<T: Ord + Copy> RBTree<T> {
    /// Takes a slot for a red leaf with `element` and links it below
    /// `parent` on side `s`.
    fn attach(&mut self, element: T, parent: Link, s: Side, Ghost(g): Ghost<int>) -> (z: usize)
        requires
            old(self).wf(),
            old(self).model().open_at(parent, s, g),
            old(self).model().slot(element, g, g),
        ensures
            z == old(self).model().fresh(),
            final(self).model() == old(self).model().attach(element, parent, s, g),
            final(self).model().red_at(z),
            final(self).model().in_order() == old(self).model().in_order().insert(g, element),
            final(self).model().node(z).value == element,
    {
        let ghost m = self.model();
        let node = Node {
            value: element,
            color: Color::Red,
            left: Link::Nil,
            right: Link::Nil,
            parent,
        };
        let ghost zmeta = Meta { live: true, rank: g, lo: g, hi: g + 1, bh: 0 };
        let ghost shifted = Seq::new(m.meta.len(), |i: int| m.meta[i].shift_up(g));
        let z: usize;
        proof {
            if let Link::Real(p) = parent {
                assert(m.node_ok(p));
            }
        }
        match self.free.pop() {
            Some(i) => {
                z = i;
                self.nodes.set(z, node);
                self.meta = Ghost(shifted.update(z as int, zmeta));
            },
            None => {
                z = self.nodes.len();
                self.nodes.push(node);
                self.meta = Ghost(shifted.push(zmeta));
                assert(self.nodes.len() == z + 1);
            },
        }
        self.order = Ghost(m.order.insert(g, z));
        match parent {
            Link::Real(p) => {
                self.set_child(p, s, Link::Real(z));
            },
            Link::Nil => {
                self.set_root(Link::Real(z));
            },
        }
        proof {
            assert(z == m.fresh());
            assert(self.model() =~= m.attach(element, parent, s, g));
            m.lemma_attach(element, parent, s, g);
        }
        z
    }

    /// The step of the restoring loop for a red uncle `u`.
    fn raise_red(&mut self, x: usize, p: usize, g: usize, u: usize)
        requires
            total_order::<T>(),
            old(self).model().red_at(x),
            old(self).model().root != Link::Real(x),
            old(self).model().node(x).parent == Link::Real(p),
            old(self).model().node(p).color == Color::Red,
            g == old(self).model().grandparent(x),
            old(self).model().uncle(x) == Link::Real(u),
            old(self).model().node(u).color == Color::Red,
        ensures
            final(self).model() == old(self).model().raise_red(x),
            final(self).model().red_at(g),
            final(self).model().in_order() == old(self).model().in_order(),
            old(self).model().same_nodes(final(self).model()),
    {
        let ghost m = self.model();
        proof {
            m.lemma_red_parent(x);
            assert(m.node_ok(g));
            assert(m.node_ok(u));
        }
        self.set_color(p, Color::Black);
        self.set_color(u, Color::Black);
        self.set_color(g, Color::Red);
        self.set_meta(Ghost(g), Ghost(Meta { bh: m.m(g).bh + 1, ..m.m(g) }));
        proof {
            m.lemma_red_uncle(self.model(), x, m.parent_side(x));
        }
    }

    /// The step of the restoring loop for a black uncle. It ends the loop.
    fn settle(&mut self, x: usize, p: usize, s: Side)
        requires
            total_order::<T>(),
            old(self).model().red_at(x),
            old(self).model().root != Link::Real(x),
            old(self).model().node(x).parent == Link::Real(p),
            old(self).model().node(p).color == Color::Red,
            s == old(self).model().parent_side(x),
            old(self).model().color_of(old(self).model().uncle(x)) == Color::Black,
        ensures
            final(self).model() == old(self).model().settle(x),
            final(self).wf(),
            final(self).model().in_order() == old(self).model().in_order(),
            old(self).model().same_nodes(final(self).model()),
    {
        let ghost m = self.model();
        proof {
            m.lemma_red_parent(x);
            assert(m.node_ok(x));
            assert(m.node_ok(p));
        }
        let mut x = x;
        if Link::Real(x) == self.child(p, s.other()) {
            self.rotate(p, s);
            proof {
                m.lemma_rotate(p, s);
                m.lemma_straighten(self.model(), x, s);
            }
            x = p;
        }
        let ghost m1 = self.model();
        proof {
            m1.lemma_red_parent(x);
            assert(m1.node_ok(x));
        }
        let p = self.parent(x).into_node();
        let g = self.parent(p).into_node();
        proof {
            assert(m1.node_ok(p));
            assert(m1.node_ok(g));
        }
        self.set_color(p, Color::Black);
        self.set_color(g, Color::Red);
        let ghost m2 = self.model();
        proof {
            assert(m1.painted(m2));
            m1.lemma_painted(m2);
        }
        self.rotate(g, s.other());
        proof {
            m2.lemma_rotate(g, s.flip());
            m1.lemma_lift_parent(m2, self.model(), x, s);
            assert(m.same_nodes(m1));
            assert(m1.same_nodes(m2));
            assert(m2.same_nodes(self.model()));
        }
    }

    /// Adds `element` to the tree, behind the values equal to it, and
    /// returns the index of the node that holds it.
    pub fn unsafe_insert(&mut self, element: T) -> (handle: usize)
        requires
            old(self).wf(),
        ensures
            final(self).wf(),
            final(self).model() == old(self).model().inserted(element),
            final(self)@ == insert_sorted(old(self)@, element),
            handle == old(self).model().fresh(),
            final(self).model().is_node(handle),
            final(self).model().node(handle).value == element,
    {
        let ghost m0 = self.model();
        let ghost mut lo: int = 0;
        let ghost mut hi: int = m0.size();
        let mut cur = self.root;
        let mut parent = Link::Nil;
        let mut side = Side::Left;
        loop
            invariant_except_break
                m0.covers(cur, lo, hi),
                match parent {
                    Link::Real(p) => m0.is_node(p) && m0.node(p).child(side) == cur && lo == (
                    match side {
                        Side::Left => m0.m(p).lo,
                        Side::Right => m0.m(p).rank + 1,
                    }) && hi == (match side {
                        Side::Left => m0.m(p).rank,
                        Side::Right => m0.m(p).hi,
                    }),
                    Link::Nil => cur == m0.root && lo == 0 && hi == m0.size(),
                },
            invariant
                self.wf(),
                m0 == self.model(),
                m0.slot(element, lo, hi),
                m0.hang(m0.root, Link::Nil, Side::Left, element) == m0.hang(
                    cur,
                    parent,
                    side,
                    element,
                ),
            ensures
                lo == hi,
                m0.open_at(parent, side, lo),
                m0.hang(m0.root, Link::Nil, Side::Left, element) == (parent, side),
            decreases hi - lo,
        {
            match cur {
                Link::Nil => {
                    proof {
                        if let Link::Real(p) = parent {
                            assert(m0.node_ok(p));
                        }
                    }
                    break ;
                },
                Link::Real(c) => {
                    proof {
                        assert(m0.node_ok(c));
                    }
                    parent = cur;
                    if less(&element, &self.nodes[c].value) {
                        proof {
                            m0.lemma_place_left(element, c, lo, hi);
                            hi = m0.m(c).rank;
                        }
                        side = Side::Left;
                        cur = self.nodes[c].left;
                    } else {
                        proof {
                            m0.lemma_place_right(element, c, lo, hi);
                            lo = m0.m(c).rank + 1;
                        }
                        side = Side::Right;
                        cur = self.nodes[c].right;
                    }
                },
            }
        }
        proof {
            let s0 = m0.in_order();
            assert forall|k: int| 0 <= k < lo implies le(#[trigger] s0[k], element) by {
                assert(s0[k] == m0.value_at(k));
            }
            assert forall|k: int| lo <= k < s0.len() implies lt(element, #[trigger] s0[k]) by {
                assert(s0[k] == m0.value_at(k));
            }
            lemma_rank_after(s0, element, lo);
        }
        let handle = self.attach(element, parent, side, Ghost(lo));
        let ghost target = self.model().in_order();
        let ghost goal = self.model().insert_fix(handle);
        let ghost mut done = false;
        let mut x = handle;
        loop
            invariant_except_break
                self.model().red_at(x),
                goal == self.model().insert_fix(x),
                !done,
            invariant
                total_order::<T>(),
                self.model().in_order() == target,
                self.model().is_node(handle),
                self.model().node(handle).value == element,
            ensures
                goal == self.model(),
                done ==> self.wf(),
                !done ==> self.model().red_at(x) && (self.model().root == Link::Real(x)
                    || self.model().color_of(self.model().node(x).parent) == Color::Black),
            decreases self.model().size() - (self.model().m(x).hi - self.model().m(x).lo),
        {
            let ghost m = self.model();
            proof {
                assert(m.node_ok(x));
            }
            if Link::Real(x) == self.root || self.color(self.parent(x)) != Color::Red {
                break ;
            }
            proof {
                m.lemma_red_parent(x);
                assert(m.node_ok(m.grandparent(x)));
            }
            let p = self.parent(x).into_node();
            let g = self.parent(p).into_node();
            let s = if Link::Real(p) == self.child(g, Side::Left) {
                Side::Left
            } else {
                Side::Right
            };
            let uncle = self.child(g, s.other());
            if self.color(uncle) == Color::Red {
                self.raise_red(x, p, g, uncle.into_node());
                x = g;
            } else {
                self.settle(x, p, s);
                proof {
                    done = true;
                }
                break ;
            }
        }
        let ghost m = self.model();
        proof {
            assert(m.node_ok(handle));
        }
        if let Link::Real(rt) = self.root {
            self.set_color(rt, Color::Black);
            proof {
                if done {
                    assert(m.node(rt).color == Color::Black);
                    assert(self.model().nodes =~= m.nodes);
                    assert(self.model() =~= m);
                } else {
                    m.lemma_blacken_root(self.model(), x);
                }
            }
        }
        handle
    }

    /// Adds `element` to the tree, behind the values equal to it.
    pub fn insert(&mut self, element: T)
        requires
            old(self).wf(),
        ensures
            final(self).wf(),
            final(self).model() == old(self).model().inserted(element),
            final(self)@ == insert_sorted(old(self)@, element),
    {
        self.unsafe_insert(element);
    }
}

} // verus!
