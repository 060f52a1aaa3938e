//! A rose tree: a value with any number of child trees.

use vstd::prelude::*;

verus! {

/// Why a walk down a tree failed.
#[derive(Debug)]
pub enum TreeError {
    IndexOutOfBoundsError,
}

/// A value with an ordered list of child trees.
#[derive(Debug)]
pub struct Tree<T> {
    node: T,
    children: Vec<Tree<T>>,
}

/// The mathematical content of a `Tree`: the value at the root and the
/// contents of the child trees, first to last.
pub struct Rose<T> {
    pub value: T,
    pub kids: Seq<Rose<T>>,
}

impl<T> Rose<T> {
    /// A tree of one node.
    pub open spec fn leaf(value: T) -> Rose<T> {
        Rose { value, kids: Seq::empty() }
    }

    /// The number of nodes on the longest path from the root to a leaf.
    pub open spec fn depth(self) -> nat
        decreases self,
    {
        1 + Self::deepest(self.kids)
    }

    /// The largest depth among `kids`, 0 where there are none.
    pub open spec fn deepest(kids: Seq<Rose<T>>) -> nat
        decreases kids,
    {
        if kids.len() == 0 {
            0
        } else {
            let d = kids.last().depth();
            let rest = Self::deepest(kids.drop_last());
            if d > rest {
                d
            } else {
                rest
            }
        }
    }

    /// A walk from the root along `path`, one child index per step, never
    /// asks a node with children for a child that it does not have.
    pub open spec fn walkable(self, path: Seq<usize>) -> bool
        decreases path.len(),
    {
        if path.len() == 0 || self.kids.len() == 0 {
            true
        } else {
            &&& (path[0] as int) < self.kids.len()
            &&& self.kids[path[0] as int].walkable(path.drop_first())
        }
    }

    /// The subtree that a walk along `path` ends at, or `None` where the
    /// walk comes to a leaf with steps left to take.
    pub open spec fn walk(self, path: Seq<usize>) -> Option<Rose<T>>
        decreases path.len(),
    {
        if path.len() == 0 {
            Some(self)
        } else if self.kids.len() == 0 {
            None
        } else {
            self.kids[path[0] as int].walk(path.drop_first())
        }
    }

    /// This tree with the subtree at the end of the walk along `path`
    /// replaced by `sub`.
    pub open spec fn graft(self, path: Seq<usize>, sub: Rose<T>) -> Rose<T>
        decreases path.len(),
    {
        if path.len() == 0 {
            sub
        } else if (path[0] as int) < self.kids.len() {
            Rose {
                value: self.value,
                kids: self.kids.update(
                    path[0] as int,
                    self.kids[path[0] as int].graft(path.drop_first(), sub),
                ),
            }
        } else {
            self
        }
    }

    /// Among more children the deepest is no shallower.
    pub proof fn lemma_deepest_prefix(kids: Seq<Rose<T>>, n: int)
        requires
            0 < n <= kids.len(),
        ensures
            kids[n - 1].depth() <= Self::deepest(kids.subrange(0, n)) <= Self::deepest(kids),
        decreases kids.len(),
    {
        if n < kids.len() {
            Self::lemma_deepest_prefix(kids.drop_last(), n);
            assert(kids.drop_last().subrange(0, n) =~= kids.subrange(0, n));
        } else {
            assert(kids.subrange(0, n) =~= kids);
        }
    }
}

impl<T> View for Tree<T> {
    type V = Rose<T>;

    /// The value at the root with the views of the children.
    closed spec fn view(&self) -> Rose<T>
        decreases self,
    {
        Rose { value: self.node, kids: Self::views(self.children@) }
    }
}

impl<T> Tree<T> {
    /// The view of a tree is made of its value and the views of its
    /// children.
    proof fn lemma_view(self)
        ensures
            self@.value == self.node,
            self@.kids.len() == self.children@.len(),
            forall|i: int|
                0 <= i < self.children@.len() ==> #[trigger] self@.kids[i] == self.children@[i]@,
    {
        Self::lemma_views(self.children@);
    }

    /// The views of `kids`, one by one.
    pub closed spec fn views(kids: Seq<Tree<T>>) -> Seq<Rose<T>>
        decreases kids,
    {
        if kids.len() == 0 {
            Seq::empty()
        } else {
            Self::views(kids.drop_last()).push(kids.last()@)
        }
    }

    /// `views` keeps the length and views each tree in its place.
    proof fn lemma_views(kids: Seq<Tree<T>>)
        ensures
            Self::views(kids).len() == kids.len(),
            forall|i: int| 0 <= i < kids.len() ==> #[trigger] Self::views(kids)[i] == kids[i]@,
        decreases kids.len(),
    {
        if kids.len() > 0 {
            let front = kids.drop_last();
            Self::lemma_views(front);
            assert(Self::views(kids) == Self::views(front).push(kids.last()@));
            assert(Self::views(kids).len() == kids.len());
            assert forall|i: int| 0 <= i < kids.len() implies #[trigger] Self::views(kids)[i]
                == kids[i]@ by {
                if i < kids.len() - 1 {
                    assert(Self::views(front)[i] == front[i]@);
                    assert(front[i] == kids[i]);
                }
            }
        }
    }

    /// A tree of one node.
    pub fn new(root: T) -> (tree: Self)
        ensures
            tree@ == Rose::leaf(root),
    {
        let tree = Self { node: root, children: Vec::new() };
        proof {
            tree.lemma_view();
            assert(tree@.kids =~= Seq::<Rose<T>>::empty());
        }
        tree
    }

    /// The value at the root.
    pub fn node(&self) -> (value: &T)
        ensures
            *value == self@.value,
    {
        proof {
            self.lemma_view();
        }
        &self.node
    }

    /// The child trees, first to last.
    pub fn children(&self) -> (kids: &Vec<Tree<T>>)
        ensures
            kids@.len() == self@.kids.len(),
            forall|i: int| 0 <= i < kids@.len() ==> kids@[i]@ == #[trigger] self@.kids[i],
    {
        proof {
            self.lemma_view();
        }
        &self.children
    }

    /// Appends a leaf that holds `node` to the children.
    pub fn add_child_node(&mut self, node: T)
        ensures
            final(self)@ == (Rose {
                value: old(self)@.value,
                kids: old(self)@.kids.push(Rose::leaf(node)),
            }),
    {
        self.add_child_tree(Tree::new(node));
    }

    /// Appends `tree` to the children.
    pub fn add_child_tree(&mut self, tree: Tree<T>)
        ensures
            final(self)@ == (Rose { value: old(self)@.value, kids: old(self)@.kids.push(tree@) }),
    {
        proof {
            self.lemma_view();
        }
        self.children.push(tree);
        proof {
            self.lemma_view();
            assert(self@.kids =~= old(self)@.kids.push(tree@));
        }
    }

    /// Whether the tree has no children.
    pub fn is_leaf(&self) -> (leaf: bool)
        ensures
            leaf == (self@.kids.len() == 0),
    {
        proof {
            self.lemma_view();
        }
        self.children.len() == 0
    }

    /// The number of nodes on the longest path from the root to a leaf.
    pub fn max_depth(&self) -> (d: usize)
        requires
            self@.depth() <= usize::MAX,
        ensures
            d == self@.depth(),
        decreases self,
    {
        proof {
            self.lemma_view();
        }
        if self.is_leaf() {
            return 1;
        }
        let mut best: usize = 0;
        let mut k: usize = 0;
        while k < self.children.len()
            invariant
                0 <= k <= self.children.len(),
                best == Rose::deepest(self@.kids.subrange(0, k as int)),
                self@.depth() <= usize::MAX,
            decreases self.children.len() - k,
        {
            proof {
                self.lemma_view();
                Rose::lemma_deepest_prefix(self@.kids, k as int + 1);
                assert(self@.kids.subrange(0, k as int + 1).drop_last() =~= self@.kids.subrange(
                    0,
                    k as int,
                ));
            }
            let d = self.children[k].max_depth();
            if d > best {
                best = d;
            }
            k += 1;
        }
        proof {
            self.lemma_view();
            assert(self@.kids.subrange(0, k as int) =~= self@.kids);
        }
        1 + best
    }

    /// The subtree at the end of the walk along `index`.
    pub fn index_depth(&self, index: Vec<usize>) -> (found: Result<&Self, TreeError>)
        requires
            self@.walkable(index@),
        ensures
            match found {
                Ok(t) => self@.walk(index@) == Some(t@),
                Err(_) => self@.walk(index@).is_none(),
            },
    {
        let mut current = self;
        let mut k: usize = 0;
        proof {
            assert(index@.subrange(0, index@.len() as int) =~= index@);
        }
        while k < index.len()
            invariant
                0 <= k <= index.len(),
                current@.walkable(index@.subrange(k as int, index@.len() as int)),
                self@.walk(index@) == current@.walk(index@.subrange(k as int, index@.len() as int)),
            decreases index.len() - k,
        {
            let ghost rest = index@.subrange(k as int, index@.len() as int);
            proof {
                current.lemma_view();
                assert(rest.drop_first() =~= index@.subrange(k as int + 1, index@.len() as int));
                assert(rest[0] == index@[k as int]);
            }
            if current.children.len() == 0 {
                return Err(TreeError::IndexOutOfBoundsError);
            }
            current = &current.children[index[k]];
            k += 1;
        }
        Ok(current)
    }

    /// The subtree at the end of the walk along `index` from step `k` on.
    fn descend_mut(&mut self, index: &Vec<usize>, k: usize) -> (found: Result<&mut Self, TreeError>)
        requires
            k <= index.len(),
            old(self)@.walkable(index@.subrange(k as int, index@.len() as int)),
        ensures
            match found {
                Ok(t) => {
                    &&& old(self)@.walk(index@.subrange(k as int, index@.len() as int)) == Some(t@)
                    &&& final(self)@ == old(self)@.graft(
                        index@.subrange(k as int, index@.len() as int),
                        final(t)@,
                    )
                },
                Err(_) => {
                    &&& old(self)@.walk(index@.subrange(k as int, index@.len() as int)).is_none()
                    &&& final(self)@ == old(self)@
                },
            },
        decreases index.len() - k,
    {
        let ghost rest = index@.subrange(k as int, index@.len() as int);
        proof {
            self.lemma_view();
        }
        if k == index.len() {
            Ok(self)
        } else if self.children.len() == 0 {
            Err(TreeError::IndexOutOfBoundsError)
        } else {
            proof {
                assert(rest.drop_first() =~= index@.subrange(k as int + 1, index@.len() as int));
                assert(rest[0] == index@[k as int]);
            }
            let i = index[k];
            let ghost before = self@;
            let ghost end = *final(self);
            let child = &mut self.children[i];
            let ghost grown = *final(child);
            let found = child.descend_mut(index, k + 1);
            proof {
                end.lemma_view();
                assert(end@.kids =~= before.kids.update(i as int, grown@));
                assert(end@ == (Rose {
                    value: before.value,
                    kids: before.kids.update(i as int, grown@),
                }));
                assert(grown@ == before.kids[i as int] ==> end@.kids =~= before.kids);
            }
            found
        }
    }

    /// The subtree at the end of the walk along `index`, to be changed in
    /// place.
    pub fn index_mut_depth(&mut self, index: Vec<usize>) -> (found: Result<&mut Self, TreeError>)
        requires
            old(self)@.walkable(index@),
        ensures
            match found {
                Ok(t) => {
                    &&& old(self)@.walk(index@) == Some(t@)
                    &&& final(self)@ == old(self)@.graft(index@, final(t)@)
                },
                Err(_) => {
                    &&& old(self)@.walk(index@).is_none()
                    &&& final(self)@ == old(self)@
                },
            },
    {
        proof {
            assert(index@.subrange(0, index@.len() as int) =~= index@);
        }
        self.descend_mut(&index, 0)
    }

    /// Appends a leaf that holds `node` to the children of the subtree at
    /// the end of the walk along `index`.
    pub fn append_at_depth(&mut self, index: Vec<usize>, node: T) -> (done: Result<(), TreeError>)
        requires
            old(self)@.walkable(index@),
        ensures
            match old(self)@.walk(index@) {
                Some(t) => done.is_ok() && final(self)@ == old(self)@.graft(
                    index@,
                    Rose { value: t.value, kids: t.kids.push(Rose::leaf(node)) },
                ),
                None => done.is_err() && final(self)@ == old(self)@,
            },
    {
        match self.index_mut_depth(index) {
            Ok(t) => {
                t.add_child_node(node);
                Ok(())
            },
            Err(e) => Err(e),
        }
    }
}

impl<T> std::ops::Index<usize> for Tree<T> {
    type Output = Tree<T>;

    /// The child tree at position `index`.
    fn index(&self, index: usize) -> (child: &Tree<T>)
        ensures
            child@ == self@.kids[index as int],
    {
        proof {
            self.lemma_view();
        }
        &self.children[index]
    }
}

impl<T> vstd::std_specs::core::IndexSpecImpl<usize> for Tree<T> {
    /// The tree has a child at position `index`.
    open spec fn index_req(&self, index: &usize) -> bool {
        (*index as int) < self@.kids.len()
    }
}

impl<T> std::ops::IndexMut<usize> for Tree<T> {
    /// The child tree at position `index`, to be changed in place.
    fn index_mut(&mut self, index: usize) -> (child: &mut Tree<T>)
        requires
            (index as int) < old(self)@.kids.len(),
        ensures
            child@ == old(self)@.kids[index as int],
            final(self)@ == (Rose {
                value: old(self)@.value,
                kids: old(self)@.kids.update(index as int, final(child)@),
            }),
    {
        proof {
            self.lemma_view();
        }
        let ghost end = *final(self);
        let child = &mut self.children[index];
        proof {
            end.lemma_view();
            assert(end@.kids =~= old(self)@.kids.update(index as int, final(child)@));
        }
        child
    }
}

} // verus!
