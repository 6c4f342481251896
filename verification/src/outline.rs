//! A picture of a tree, to be shown.
use vstd::prelude::*;

use crate::handle::Mergex;
use crate::state::TreeState;
use crate::tree::Tree;

verus! {

/// What a node and everything below it hold, with no merging.
#[derive(Debug)]
pub struct Outline<T> {
    /// The data of the node.
    pub data: T,
    /// Whether the node owes its father something.
    pub dirty: bool,
    /// The sons, oldest first.
    pub sons: Vec<Outline<T>>,
}

impl<T: Clone> TreeState<T> {
    /// `outline` shows `n` and everything that is linked below it.
    pub open spec fn shown(self, n: usize, outline: Outline<T>) -> bool
        decreases self.nodes.len() - n,
    {
        let sons = self.node(n).sons;
        &&& cloned(self.node(n).data, outline.data)
        &&& outline.dirty == self.node(n).dirty
        &&& outline.sons@.len() == sons.len()
        &&& forall|i: int|
            0 <= i < sons.len() ==> n < #[trigger] sons[i] && self.has(sons[i]) && self.shown(
                sons[i],
                outline.sons@[i],
            )
    }
}

impl<T> TreeState<T> {
    /// The node that is reached from `n` by going down: at each step to the son at the
    /// next place of the path.
    pub open spec fn descended(self, n: usize, path: Seq<int>) -> usize
        decreases path.len(),
    {
        if path.len() == 0 {
            n
        } else {
            self.node(self.descended(n, path.drop_last())).sons[path.last()]
        }
    }

    /// There is a son at each place of the path.
    pub open spec fn leads_down(self, n: usize, path: Seq<int>) -> bool
        decreases path.len(),
    {
        path.len() == 0 || {
            let above = self.descended(n, path.drop_last());
            &&& self.leads_down(n, path.drop_last())
            &&& 0 <= path.last() < self.node(above).sons.len()
        }
    }
}

impl<T> Outline<T> {
    /// The part of the picture that is reached by going down.
    pub open spec fn part(self, path: Seq<int>) -> Self
        decreases path.len(),
    {
        if path.len() == 0 {
            self
        } else {
            self.part(path.drop_last()).sons@[path.last()]
        }
    }
}

impl<T: Clone> TreeState<T> {
    /// A picture shows every node below, at any depth, in its own place: whatever way one
    /// goes down, in the tree and in the picture alike, one comes to a node and to its
    /// data, its dirty bit and as many sons as it lists.
    pub proof fn law_a_picture_shows_every_node(
        self,
        n: usize,
        outline: Outline<T>,
        path: Seq<int>,
    )
        requires
            self.shaped(),
            self.has(n),
            self.shown(n, outline),
            self.leads_down(n, path),
        ensures
            ({
                let x = self.descended(n, path);
                let part = outline.part(path);
                &&& self.has(x)
                &&& self.shown(x, part)
                &&& cloned(self.node(x).data, part.data)
                &&& part.dirty == self.node(x).dirty
                &&& part.sons@.len() == self.node(x).sons.len()
            }),
        decreases path.len(),
    {
        if path.len() > 0 {
            let rest = path.drop_last();
            self.law_a_picture_shows_every_node(n, outline, rest);
            let x = self.descended(n, rest);
            self.lemma_son(x, path.last());
            let s = self.node(x).sons[path.last()];
            assert(self.shown(s, outline.part(rest).sons@[path.last()]));
        }
    }
}

impl<T: Clone, M> Tree<T, M> {
    fn outline(&self, n: usize) -> (outline: Outline<T>)
        requires
            self@.shaped(),
            self@.has(n),
            self.neat(),
            self@.linked(n),
        ensures
            self@.shown(n, outline),
        decreases self@.nodes.len() - n,
    {
        let names = self.snapshot_sons(n);
        let mut sons: Vec<Outline<T>> = Vec::new();
        let mut i: usize = 0;
        while i < names.len()
            invariant
                self@.shaped(),
                self@.has(n),
                self.neat(),
                names@ == self@.node(n).sons,
                0 <= i <= names@.len(),
                sons@.len() == i,
                forall|j: int|
                    0 <= j < i ==> n < #[trigger] names@[j] && self@.has(names@[j]) && self@.shown(
                        names@[j],
                        sons@[j],
                    ),
            decreases names@.len() - i,
        {
            proof {
                self@.lemma_son(n, i as int);
            }
            sons.push(self.outline(names[i]));
            i = i + 1;
        }
        Outline { data: self.data(n).clone(), dirty: self.load_dirty(n), sons }
    }
}

impl<T: Clone> Mergex<T> {
    /// A picture of this node and everything below it. Looking changes nothing:
    /// not the data, and not the number of handles.
    pub fn outline<M: Fn(&mut T, &T)>(&self, tree: &Tree<T, M>) -> (outline: Outline<T>)
        requires
            tree.wf(),
            tree@.held(self.id()),
        ensures
            tree@.shown(self.id(), outline),
    {
        proof {
            tree.lemma_held_is_stored(self.id());
        }
        tree.outline(self.name())
    }
}

} // verus!
