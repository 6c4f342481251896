//! Handles: the way in to the nodes of a tree.
use std::marker::PhantomData;

use vstd::prelude::*;

use crate::climb::owes;
use crate::climb::retires;
use crate::monoid::callable;
use crate::state::NodeState;
use crate::state::TreeState;
use crate::sweep::lemma_filter_is_part;
use crate::tree::Tree;

verus! {

impl<T> TreeState<T> {
    /// `n` names a node that somebody holds a handle to.
    pub open spec fn held(self, n: usize) -> bool {
        self.has(n) && self.node(n).handles > 0
    }

    /// A node that nobody has written to yet.
    pub open spec fn fresh_node(data: T, ancestors: Seq<usize>) -> NodeState<T> {
        NodeState {
            sons: Seq::empty(),
            handles: 1,
            dead: false,
            data,
            dirty: false,
            subtree_dirty: false,
            ancestors,
        }
    }

    /// A tree of one node, the root.
    pub open spec fn planted(data: T, identity: T) -> Self {
        TreeState { nodes: seq![Self::fresh_node(data, Seq::empty())], identity }
    }

    /// The tree with one more node, the youngest son of `n`, that holds `data`.
    pub open spec fn grown(self, n: usize, data: T) -> Self {
        let father = self.node(n);
        let name = self.nodes.len() as usize;
        TreeState {
            nodes: self.nodes.update(
                n as int,
                NodeState { sons: father.sons.push(name), ..father },
            ).push(Self::fresh_node(data, seq![n] + father.ancestors)),
            identity: self.identity,
        }
    }

    /// The tree with `data` written to `n`: `n` is dirty, and the flags of all
    /// its ancestors are up.
    pub open spec fn written(self, n: usize, data: T) -> Self {
        TreeState {
            nodes: Seq::new(
                self.nodes.len(),
                |x: int|
                    if x == n {
                        NodeState { data, dirty: true, ..self.nodes[x] }
                    } else if self.under(n, x as usize) {
                        NodeState { subtree_dirty: true, ..self.nodes[x] }
                    } else {
                        self.nodes[x]
                    },
            ),
            identity: self.identity,
        }
    }

    /// The tree with one more handle to `n`.
    pub open spec fn shared(self, n: usize) -> Self {
        self.with(
            n,
            NodeState { handles: (self.node(n).handles + 1) as usize, ..self.node(n) },
        )
    }

    /// The tree with one handle to `n` less. The last one to go leaves `n` dead.
    pub open spec fn released(self, n: usize) -> Self {
        let left = (self.node(n).handles - 1) as usize;
        self.with(
            n,
            NodeState { handles: left, dead: self.node(n).dead || left == 0, ..self.node(n) },
        )
    }
}

impl<T: Clone> TreeState<T> {
    /// The tree after a read at `n`, apart from the data of `n`: everything
    /// below is swept into `n`, and what `n` took in from below it now owes to
    /// its own father.
    pub open spec fn collected(self, new: Self, n: usize) -> bool {
        let owes = n != 0 && self.stirred(n);
        self.cleared(new, n) && new.node(n).dirty == (self.node(n).dirty || owes)
    }
}

// ---------------------------------------------------------------------------
// Soundness is kept
// ---------------------------------------------------------------------------

impl<T: Clone> TreeState<T> {
    /// A tree of one node is sound.
    proof fn lemma_planted(self)
        requires
            self == Self::planted(self.node(0).data, self.identity),
        ensures
            self.sound(),
    {
        assert(self.nodes.len() == 1);
        assert forall|x: usize| self.has(x) && self.under(x, 0) implies #[trigger] self.announced(x) by {
            assert(x == 0);
            assert(self.node(0).ancestors == Seq::<usize>::empty());
        }
    }
}

impl<T> TreeState<T> {
    /// Registering a son keeps the shape of the tree.
    pub proof fn lemma_grown_shaped(self, n: usize, data: T)
        requires
            self.shaped(),
            self.held(n),
            self.nodes.len() < usize::MAX,
        ensures
            self.grown(n, data).shaped(),
            forall|x: usize| self.has(x) ==> self.linked(x) == #[trigger] self.grown(n, data).linked(x),
    {
        let new = self.grown(n, data);
        let name = self.nodes.len() as usize;
        assert forall|x: usize| self.has(x) && x != n implies #[trigger] new.node(x) == self.node(x) by {}
        assert forall|x: usize| 0 < x && new.has(x) implies #[trigger] new.descends(x) by {
            if x == name {
                assert(new.node(x).ancestors[0] == n);
            } else {
                assert(self.descends(x));
            }
        }
        assert forall|x: usize| new.has(x) implies #[trigger] new.lists_its_own(x) by {
            if x != name {
                assert(self.lists_its_own(x));
                let sons = new.node(x).sons;
                assert forall|i: int| 0 <= i < sons.len() implies new.has(#[trigger] sons[i]) && 0 < sons[i]
                    && new.father(sons[i]) == x by {
                    if i < self.node(x).sons.len() {
                        assert(self.has(self.node(x).sons[i]));
                    }
                }
            }
        }
        assert forall|x: usize| self.has(x) implies self.linked(x) == #[trigger] new.linked(x) by {
            if 0 < x {
                assert(self.descends(x));
                let f = self.father(x);
                let was = self.node(f).sons;
                if was.contains(x) {
                    assert(new.node(f).sons[was.index_of(x)] == x);
                }
            }
        }
        assert forall|x: usize| new.has(x) && !#[trigger] new.linked(x) implies new.spent(x) by {
            if x == name {
                let sons = new.node(n).sons;
                assert(sons[sons.len() - 1] == name);
            } else {
                assert(self.linked(x) == new.linked(x));
                assert(self.spent(x));
            }
        }
        assert forall|x: usize| new.has(x) && (#[trigger] new.node(x)).dead implies new.node(
            x,
        ).handles == 0 by {
            assert(self.node(x).dead);
        }
    }

    /// The ancestors of an ancestor come after it in the list.
    pub proof fn lemma_ancestor_chain(self, n: usize, i: int, j: int)
        requires
            self.shaped(),
            self.has(n),
            0 <= i < j < self.node(n).ancestors.len(),
        ensures
            self.under(self.node(n).ancestors[i], self.node(n).ancestors[j]),
        decreases n,
    {
        assert(self.descends(n));
        let f = self.father(n);
        let up = self.node(f).ancestors;
        assert(self.node(n).ancestors[j] == up[j - 1]);
        if i == 0 {
            self.lemma_ancestor(f, j - 1);
        } else {
            assert(self.node(n).ancestors[i] == up[i - 1]);
            self.lemma_ancestor_chain(f, i - 1, j - 1);
        }
    }

    /// What is linked hangs from the root by linked nodes only.
    pub proof fn lemma_ancestors_linked(self, n: usize, x: usize)
        requires
            self.shaped(),
            self.has(n),
            self.linked(n),
            self.under(n, x),
        ensures
            self.linked(x),
        decreases n,
    {
        self.lemma_under_step(n, x);
        self.lemma_linked_up(n);
        assert(self.descends(n));
        if self.father(n) != x {
            self.lemma_ancestors_linked(self.father(n), x);
        }
    }

    /// In a coherent tree everything above a raised flag is raised.
    pub proof fn lemma_flags_above(self, x: usize, a: usize)
        requires
            self.shaped(),
            self.coherent(),
            self.has(x),
            self.linked(x),
            self.node(x).dirty || self.node(x).subtree_dirty,
            self.under(x, a),
        ensures
            self.node(a).subtree_dirty,
    {
        self.lemma_under_is_younger(x, a);
        if a != 0 {
            self.lemma_under_root(a);
            self.lemma_coherent_branch(0, a);
        }
        self.lemma_dirty_flags_up(x, a);
    }

    /// In a coherent tree a walk up that stops at the first raised flag leaves
    /// every flag on the way to the root raised.
    pub proof fn lemma_marked_all(self, n: usize, data: T)
        requires
            self.shaped(),
            self.coherent(),
            self.has(n),
            self.linked(n),
        ensures
            self.with(n, (NodeState { data, dirty: true, ..self.node(n) })).marked(n)
                == self.written(n, data),
            self.node(n).dirty ==> self.with(n, (NodeState { data, dirty: true, ..self.node(n) }))
                == self.written(n, data),
    {
        let put = self.with(n, (NodeState { data, dirty: true, ..self.node(n) }));
        let up = self.node(n).ancestors;
        assert forall|x: usize| self.has(x) implies (put.node(x).subtree_dirty
            || #[trigger] put.climbs_to(n, x)) == (
            self.node(x).subtree_dirty || self.under(n, x)) by {
            if self.under(n, x) {
                let j = up.index_of(x);
                assert(up[j] == x);
                if !put.climbs_to(n, x) {
                    assert(put.node(n).ancestors == up);
                    let i = choose|i: int| 0 <= i < j && put.node(#[trigger] up[i]).subtree_dirty;
                    self.lemma_ancestor(n, i);
                    self.lemma_ancestors_linked(n, up[i]);
                    self.lemma_ancestor_chain(n, i, j);
                    self.lemma_flags_above(up[i], x);
                }
            } else if put.climbs_to(n, x) {
                assert(up.contains(x));
            }
        }
        assert(!self.under(n, n)) by {
            if self.under(n, n) {
                self.lemma_under_is_younger(n, n);
            }
        }
        assert forall|x: int| 0 <= x < self.nodes.len() implies #[trigger] put.marked(n).nodes[x]
            == self.written(n, data).nodes[x] by {
            let y = x as usize;
            assert(put.nodes[x] == put.node(y) && self.nodes[x] == self.node(y));
            assert((put.node(y).subtree_dirty || put.climbs_to(n, y)) == (
            self.node(y).subtree_dirty || self.under(n, y)));
        }
        assert(put.marked(n) =~= self.written(n, data));
        if self.node(n).dirty {
            assert forall|x: int| 0 <= x < self.nodes.len() implies #[trigger] put.nodes[x]
                == self.written(n, data).nodes[x] by {
                let y = x as usize;
                assert(self.nodes[x] == self.node(y));
                if self.under(n, y) {
                    self.lemma_flags_above(n, y);
                }
            }
            assert(put =~= self.written(n, data));
        }
    }

    /// A node with handles is linked.
    pub proof fn lemma_held_is_linked(self, n: usize)
        requires
            self.shaped(),
            self.held(n),
        ensures
            self.linked(n),
    {
        if !self.linked(n) {
            assert(self.spent(n));
        }
    }
}

impl<T: Clone> TreeState<T> {
    /// Registering a son keeps the tree sound.
    pub proof fn lemma_grown_sound(self, n: usize, data: T)
        requires
            self.sound(),
            self.held(n),
            self.nodes.len() < usize::MAX,
            cloned(self.identity, data),
        ensures
            self.grown(n, data).sound(),
    {
        let new = self.grown(n, data);
        let name = self.nodes.len() as usize;
        self.lemma_grown_shaped(n, data);
        assert forall|x: usize| new.has(x) && (#[trigger] new.node(x)).handles == 0 implies new.node(
            x,
        ).dead by {
            assert(x != name && self.node(x).handles == 0);
        }
        assert forall|x: usize|
            new.has(x) && new.under(x, 0) && new.linked(x) implies #[trigger] new.announced(x) by {
            if x != name {
                assert(self.linked(x) == new.linked(x));
                assert(self.under(x, 0));
                assert(self.announced(x));
                self.lemma_under_step(x, 0);
                assert(self.descends(x));
            }
        }
        assert forall|x: usize| 0 < x && new.has(x) && !(#[trigger] new.node(x)).dirty implies cloned(
            new.identity, new.node(x).data) by {
            if x != name {
                assert(!self.node(x).dirty);
            }
        }
    }

    /// Writing keeps the tree sound.
    pub proof fn lemma_written_sound(self, n: usize, data: T)
        requires
            self.sound(),
            self.held(n),
        ensures
            self.written(n, data).sound(),
    {
        let new = self.written(n, data);
        self.lemma_held_is_linked(n);
        assert forall|x: usize| self.has(x) implies #[trigger] new.node(x) == (
            if x == n {
                NodeState { data, dirty: true, ..self.node(x) }
            } else if self.under(n, x) {
                NodeState { subtree_dirty: true, ..self.node(x) }
            } else {
                self.node(x)
            }) by {}
        assert(self.same_frame(new));
        self.lemma_shape_kept(new);
        assert forall|x: usize|
            new.has(x) && new.under(x, 0) && new.linked(x) implies #[trigger] new.announced(x) by {
            self.lemma_same_under(new, x, 0);
            self.lemma_under_step(x, 0);
            self.lemma_linked_up(x);
            assert(new.node(self.father(x)).sons == self.node(self.father(x)).sons);
            assert(self.linked(x));
            assert(self.announced(x));
            let f = self.father(x);
            if x == n {
                self.lemma_under_step(n, f);
            } else if self.under(n, x) {
                self.lemma_under_step(x, f);
                self.lemma_under_trans(n, x, f);
            }
            if self.under(n, n) {
                self.lemma_under_is_younger(n, n);
            }
        }
    }

    /// Counting handles keeps the tree sound.
    pub proof fn lemma_handles_sound(self, n: usize, handles: usize, dead: bool)
        requires
            self.sound(),
            self.held(n),
            dead <==> handles == 0,
        ensures
            self.with(n, (NodeState { handles, dead, ..self.node(n) })).sound(),
    {
        let new = self.with(n, (NodeState { handles, dead, ..self.node(n) }));
        self.lemma_handles_shaped(n, handles, dead);
        assert forall|x: usize| new.has(x) && (#[trigger] new.node(x)).handles == 0 implies new.node(
            x,
        ).dead by {
            if x != n {
                assert(self.node(x).handles == 0);
            }
        }
        assert forall|x: usize|
            new.has(x) && new.under(x, 0) && new.linked(x) implies #[trigger] new.announced(x) by {
            assert(self.under(x, 0));
            self.lemma_under_step(x, 0);
            assert(self.descends(x));
            assert(self.linked(x));
            assert(self.announced(x));
        }
        assert forall|x: usize| 0 < x && new.has(x) && !(#[trigger] new.node(x)).dirty implies cloned(
            new.identity, new.node(x).data) by {
            assert(!self.node(x).dirty);
        }
    }

    /// Reading keeps the shape of the tree.
    pub proof fn lemma_collected_shaped(self, new: Self, n: usize)
        requires
            self.shaped(),
            self.held(n),
            self.collected(new, n),
        ensures
            new.shaped(),
    {
        let mid = new.with(n, (NodeState { dirty: self.node(n).dirty, ..new.node(n) }));
        self.lemma_cleared_either_way(new, n, self.node(n).dirty);
        self.lemma_swept_shaped(mid, n);
        assert forall|x: usize| self.has(x) && x != n implies #[trigger] new.node(x) == mid.node(x) by {}
        assert forall|x: usize| mid.has(x) && #[trigger] mid.spent(x) implies new.spent(x) by {
            if x == n {
                assert(mid.node(n).handles == self.node(n).handles);
            }
        }
        assert(mid.same_frame(new)) by {
            assert forall|x: usize| mid.has(x) implies {
                &&& (#[trigger] new.node(x)).handles == mid.node(x).handles
                &&& new.node(x).dead == mid.node(x).dead
                &&& new.node(x).ancestors == mid.node(x).ancestors
            } by {}
        }
        mid.lemma_shape_kept(new);
    }

    /// Reading keeps the tree sound.
    pub proof fn lemma_collected_sound(self, new: Self, n: usize)
        requires
            self.sound(),
            self.held(n),
            self.collected(new, n),
            n != 0 && !new.node(n).dirty ==> new.node(n).data == self.node(n).data,
        ensures
            new.sound(),
    {
        let mid = new.with(n, (NodeState { dirty: self.node(n).dirty, ..new.node(n) }));
        self.lemma_held_is_linked(n);
        self.lemma_cleared_either_way(new, n, self.node(n).dirty);
        self.lemma_collected_shaped(new, n);
        assert forall|x: usize| self.has(x) && x != n implies #[trigger] new.node(x) == mid.node(x) by {}
        assert forall|x: usize|
            new.has(x) && new.under(x, 0) && new.linked(x) implies #[trigger] new.announced(x) by {
            self.lemma_same_under(mid, x, 0);
            self.lemma_same_under(mid, x, n);
            self.lemma_under_step(x, 0);
            self.lemma_under_step(x, n);
            self.lemma_linked_up(x);
            let f = self.father(x);
            assert(new.node(x).ancestors == mid.node(x).ancestors);
            assert(new.node(f).sons == mid.node(f).sons);
            if self.under(x, n) {
                self.lemma_under_is_younger(x, n);
                assert(self.drained(mid, x));
                assert(self.linked(x)) by {
                    if !self.linked(x) {
                        // what was unlinked before is not listed again
                        self.lemma_stays_unlinked(mid, n, x);
                    }
                }
            } else {
                assert(!self.within(f, n));
                assert(mid.node(f) == self.node(f));
                assert(new.node(f) == self.node(f));
                assert(self.linked(x));
                assert(self.announced(x));
                if x == n {
                    if self.stirred(n) {
                        if n != 0 {
                            self.lemma_coherent_branch(0, n);
                        }
                        self.lemma_stirred_is_flagged(n);
                    }
                } else {
                    assert(mid.node(x) == self.node(x));
                }
            }
        }
        assert forall|x: usize| 0 < x && new.has(x) && !(#[trigger] new.node(x)).dirty implies cloned(
            new.identity, new.node(x).data) by {
            if x == n {
                assert(!self.node(n).dirty);
            } else if self.under(x, n) {
                assert(self.drained(mid, x));
                if !self.pending(x) {
                    assert(!self.node(x).dirty);
                }
            } else {
                assert(mid.node(x) == self.node(x));
                assert(!self.node(x).dirty);
            }
        }
    }

    /// A sweep links nothing.
    pub proof fn lemma_stays_unlinked(self, new: Self, n: usize, x: usize)
        requires
            self.shaped(),
            self.has(n),
            self.swept(new, n),
            self.has(x),
            !self.linked(x),
        ensures
            !new.linked(x),
    {
        assert(self.descends(x));
        let f = self.father(x);
        self.lemma_same_under(new, x, n);
        if self.under(f, n) {
            assert(self.drained(new, f));
        } else if f != n {
            assert(new.node(f) == self.node(f));
        }
        let was = self.node(f).sons;
        if new.node(f).sons.contains(x) && new.node(f).sons != was {
            lemma_filter_is_part(was, |s: usize| !new.spent(s));
            let i = new.node(f).sons.index_of(x);
            assert(was.contains(new.unspent(was)[i]));
        }
    }
}

impl<T> TreeState<T> {
    /// Writing to a node that somebody holds keeps the shape.
    pub proof fn lemma_write_shaped(self, n: usize, data: T)
        requires
            self.shaped(),
            self.held(n),
        ensures
            self.with(n, (NodeState { data, dirty: true, ..self.node(n) })).shaped(),
    {
        let new = self.with(n, (NodeState { data, dirty: true, ..self.node(n) }));
        assert forall|x: usize| self.has(x) && x != n implies #[trigger] new.node(x) == self.node(
            x,
        ) by {}
        assert(self.same_frame(new));
        self.lemma_shape_kept(new);
    }

    /// Counting handles of a node that somebody holds keeps the shape.
    pub proof fn lemma_handles_shaped(self, n: usize, handles: usize, dead: bool)
        requires
            self.shaped(),
            self.held(n),
            dead ==> handles == 0,
        ensures
            self.with(n, (NodeState { handles, dead, ..self.node(n) })).shaped(),
    {
        let new = self.with(n, (NodeState { handles, dead, ..self.node(n) }));
        assert forall|x: usize| self.has(x) && x != n implies #[trigger] new.node(x) == self.node(x) by {}
        assert forall|x: usize| 0 < x && new.has(x) implies #[trigger] new.descends(x) by {
            assert(self.descends(x));
        }
        assert forall|x: usize| new.has(x) implies #[trigger] new.lists_its_own(x) by {
            assert(self.lists_its_own(x));
        }
        assert forall|x: usize| new.has(x) && !#[trigger] new.linked(x) implies new.spent(x) by {
            if 0 < x {
                assert(self.descends(x));
            }
            assert(!self.linked(x));
            assert(self.spent(x));
        }
        assert forall|x: usize| new.has(x) && (#[trigger] new.node(x)).dead implies new.node(
            x,
        ).handles == 0 by {
            if x != n {
                assert(self.node(x).dead);
            }
        }
    }
}

/// Handle to a node in a tree. Cloning one shares the node, it does not copy it.
///
/// Except at the root, the data a node holds is the delta still owed to its
/// father, not the aggregate: it goes back to the identity every time it is
/// folded upward.
///
/// A handle is counted until it is given up with `drop`, which takes the tree along:
/// the count is in the tree, and a handle on its own cannot reach it. One that only
/// falls out of scope stays counted, and its node stays linked for good.
#[must_use]
#[derive(Debug)]
pub struct Mergex<T> {
    node: usize,
    slot: PhantomData<T>,
}

impl<T> Mergex<T> {
    /// The node that this handle leads to.
    pub closed spec fn id(self) -> usize {
        self.node
    }

    pub(crate) fn name(&self) -> (name: usize)
        ensures
            name == self.id(),
    {
        self.node
    }

    pub(crate) fn to(node: usize) -> (handle: Self)
        ensures
            handle.id() == node,
    {
        Mergex { node, slot: PhantomData }
    }
}

impl<T: Clone, M: Fn(&mut T, &T)> Tree<T, M> {
    /// What holds of every tree between operations.
    pub open spec fn wf(self) -> bool {
        self@.sound() && self.neat()
    }

    /// A node that somebody holds is in the store, and so are its ancestors.
    pub(crate) proof fn lemma_held_is_stored(self, n: usize)
        requires
            self.wf(),
            self@.held(n),
        ensures
            self.stores(n),
            self@.linked(n),
            forall|i: int|
                0 <= i < self@.node(n).ancestors.len() ==> self.stores(
                    #[trigger] self@.node(n).ancestors[i],
                ),
    {
        self@.lemma_held_is_linked(n);
        assert forall|i: int| 0 <= i < self@.node(n).ancestors.len() implies self.stores(
            #[trigger] self@.node(n).ancestors[i],
        ) by {
            self@.lemma_ancestor(n, i);
            self@.lemma_ancestors_linked(n, self@.node(n).ancestors[i]);
        }
    }
}

impl<T: Clone> Mergex<T> {
    /// Builds a tree whose root holds `data`, and returns it with a handle to
    /// the root.
    ///
    /// `identity` is the neutral element of `merge`: folding it into any value
    /// leaves that value unchanged. Every node is reset to it once its data has
    /// been folded into its father, which is what stops the same delta from
    /// being counted twice by two successive reads.
    pub fn new<M: Fn(&mut T, &T)>(data: T, identity: T, merge: M) -> (made: (Tree<T, M>, Mergex<T>))
        ensures
            made.0.wf(),
            made.0.merge() == merge,
            made.0@ == TreeState::planted(data, identity),
            made.1.id() == 0,
    {
        let tree = Tree::plant(data, identity, merge);
        proof {
            tree@.lemma_planted();
        }
        (tree, Mergex { node: 0, slot: PhantomData })
    }

    /// Registers a new son and returns its handle.
    ///
    /// The son starts at the identity: it owes its father nothing yet. Seeding
    /// it with a value instead would be a write nobody ever asked for.
    pub fn copy<M: Fn(&mut T, &T)>(&self, tree: &mut Tree<T, M>) -> (son: Mergex<T>)
        requires
            old(tree).wf(),
            old(tree)@.held(self.id()),
            old(tree)@.nodes.len() < usize::MAX,
        ensures
            final(tree).wf(),
            final(tree).merge() == old(tree).merge(),
            son.id() == old(tree)@.nodes.len(),
            cloned(old(tree)@.identity, final(tree)@.node(son.id()).data),
            final(tree)@ == old(tree)@.grown(self.id(), final(tree)@.node(son.id()).data),
            final(tree)@.node(son.id()).handles == 1,
            !final(tree)@.node(son.id()).dead,
            final(tree)@.node(son.id()).ancestors == seq![self.id()] + old(tree)@.node(
                self.id(),
            ).ancestors,
            final(tree)@.node(self.id()).sons == old(tree)@.node(self.id()).sons.push(son.id()),
            forall|x: usize|
                old(tree)@.has(x) && x != self.id() ==> #[trigger] final(tree)@.node(x)
                    == old(tree)@.node(x),
    {
        proof {
            tree.lemma_held_is_stored(self.node);
        }
        let node = tree.grow(self.node);
        proof {
            let data = tree@.node(node).data;
            old(tree)@.lemma_grown_sound(self.node, data);
            old(tree)@.lemma_grown_shaped(self.node, data);
            assert forall|x: usize| tree@.has(x) implies #[trigger] tree.stores(x)
                == tree@.linked(x) by {
                if x == node {
                    let sons = tree@.node(self.node).sons;
                    assert(sons[sons.len() - 1] == node);
                } else {
                    assert(old(tree).stores(x) == old(tree)@.linked(x));
                    assert(old(tree)@.linked(x) == tree@.linked(x));
                }
            }
        }
        Mergex { node, slot: PhantomData }
    }

    /// Overwrites this node's data and marks it out of sync with its father.
    pub fn set<M: Fn(&mut T, &T)>(&self, tree: &mut Tree<T, M>, data: T)
        requires
            old(tree).wf(),
            old(tree)@.held(self.id()),
        ensures
            final(tree).wf(),
            final(tree).merge() == old(tree).merge(),
            final(tree)@ == old(tree)@.written(self.id(), data),
            final(tree)@.node(self.id()).data == data,
    {
        let overwrite = |slot: &mut T| -> (done: ())
            ensures
                *final(slot) == data,
            {
                *slot = data;
            };
        self.update(tree, overwrite);
    }

    /// Read-modify-writes this node's data and marks it out of sync with its
    /// father. `set` is this with a closure that overwrites.
    pub fn update<M: Fn(&mut T, &T)>(&self, tree: &mut Tree<T, M>, f: impl FnOnce(&mut T))
        requires
            old(tree).wf(),
            old(tree)@.held(self.id()),
            forall|slot: &mut T|
                *slot == old(tree)@.node(self.id()).data ==> #[trigger] call_requires(f, (slot,)),
        ensures
            final(tree).wf(),
            final(tree).merge() == old(tree).merge(),
            exists|slot: &mut T|
                *slot == old(tree)@.node(self.id()).data && *final(slot) == final(tree)@.node(
                    self.id(),
                ).data && #[trigger] call_ensures(f, (slot,), ()),
            final(tree)@ == old(tree)@.written(self.id(), final(tree)@.node(self.id()).data),
    {
        let ghost before = tree@;
        proof {
            tree.lemma_held_is_stored(self.node);
        }
        let was_dirty: bool = tree.write(self.node, f);
        let ghost data = tree@.node(self.node).data;
        proof {
            before.lemma_held_is_linked(self.node);
            before.lemma_marked_all(self.node, data);
            before.lemma_written_sound(self.node, data);
            before.lemma_write_shaped(self.node, data);
        }
        // A bit that is still up means that no merge has folded this node since
        // the write that raised it, and that write flagged the ancestors.
        if !was_dirty {
            tree.mark_ancestors(self.node);
        }
        proof {
            assert(before.same_lists(tree@)) by {
                assert forall|x: usize| before.has(x) implies (#[trigger] tree@.node(x)).sons
                    == before.node(x).sons && tree@.node(x).ancestors == before.node(
                    x,
                ).ancestors by {
                    assert(before.nodes[x as int] == before.node(x));
                }
            }
            tree.lemma_stays_neat(*old(tree));
        }
    }

    /// This node's own data, with no merging. Away from the root that is the
    /// delta still owed to the father, so it reads back as the identity right
    /// after a fold, not as everything this node has ever written.
    pub fn get_threaded<M: Fn(&mut T, &T)>(&self, tree: &Tree<T, M>) -> (data: T)
        requires
            tree.wf(),
            tree@.held(self.id()),
        ensures
            cloned(tree@.node(self.id()).data, data),
    {
        proof {
            tree.lemma_held_is_stored(self.node);
        }
        tree.data(self.node).clone()
    }

    /// Folds every dirty descendant into this node, deepest first, and returns
    /// the result. Called on the root, that is the aggregate.
    ///
    /// A node other than the root that took something in from below owes it to
    /// its own father, and is dirty from then on.
    ///
    /// The fold need not be callable on all values: it is enough that it may be
    /// called on those that this read folds.
    pub fn get<M: Fn(&mut T, &T)>(&self, tree: &mut Tree<T, M>) -> (data: T)
        requires
            old(tree).wf(),
            old(tree)@.held(self.id()),
            callable(old(tree).merge()) || exists|g: spec_fn(T, T) -> T| #[trigger]
                old(tree)@.foldable(old(tree).merge(), g, self.id()) && forall|
                    father: &mut T,
                    son: &T,
                | #[trigger]
                    call_ensures(old(tree).merge(), (father, son), ()) ==> *final(father) == g(
                        *father,
                        *son,
                    ),
        ensures
            final(tree).wf(),
            final(tree).merge() == old(tree).merge(),
            old(tree)@.collected(final(tree)@, self.id()),
            forall|x: usize|
                old(tree)@.has(x) ==> {
                    &&& (#[trigger] final(tree)@.node(x)).handles == old(tree)@.node(x).handles
                    &&& final(tree)@.node(x).ancestors == old(tree)@.node(x).ancestors
                },
            old(tree)@.node(self.id()).subtree_dirty ==> final(tree)@.node(self.id()).sons
                == old(tree)@.node(self.id()).sons.filter(|s: usize| !final(tree)@.vacant(s)),
            !old(tree)@.stirred(self.id()) ==> final(tree)@.node(self.id()).data
                == old(tree)@.node(self.id()).data,
            forall|g: spec_fn(T, T) -> T|
                (forall|father: &mut T, son: &T| #[trigger]
                    call_ensures(old(tree).merge(), (father, son), ()) ==> *final(father) == g(
                        *father,
                        *son,
                    )) ==> final(tree)@.node(self.id()).data == #[trigger] old(tree)@.folded(
                    g,
                    self.id(),
                ),
            cloned(final(tree)@.node(self.id()).data, data),
    {
        let ghost before = tree@;
        let n: usize = self.node;
        proof {
            tree.lemma_held_is_stored(n);
            if n != 0 {
                before.lemma_under_root(n);
                before.lemma_coherent_branch(0, n);
            }
        }
        let changed: bool = tree.merge_sons(n);
        let ghost mid = tree@;
        let ghost swept = *tree;
        proof {
            if n != 0 {
                assert(mid.descends(n));
            }
            assert(mid.node(n).handles == before.node(n).handles);
            mid.lemma_held_is_linked(n);
            assert(tree.stores(n));
        }
        // The flags of the ancestors are up: something below this one was dirty.
        if owes(changed, tree.depth(n)) {
            tree.store_dirty(n, true);
        }
        proof {
            before.lemma_cleared_either_way(mid, n, tree@.node(n).dirty);
            assert(tree@ =~= mid.with(n, (NodeState { dirty: tree@.node(n).dirty, ..mid.node(n) })));
            before.lemma_collected_sound(tree@, n);
            tree.lemma_stays_neat(swept);
            if before.node(n).subtree_dirty {
                before.lemma_sweep_leaves_no_vacancy(tree@, n);
            }
        }
        self.get_threaded(tree)
    }

    /// Whether any descendant has something pending. `false` does not promise
    /// that a `get` is free, only that no write is waiting to be folded.
    pub fn check_children<M: Fn(&mut T, &T)>(&self, tree: &Tree<T, M>) -> (found: bool)
        requires
            tree.wf(),
            tree@.held(self.id()),
        ensures
            found == tree@.stirred(self.id()),
            found == exists|x: usize|
                tree@.has(x) && (#[trigger] tree@.node(x)).ancestors.contains(self.id())
                    && tree@.node(x).dirty,
    {
        proof {
            tree.lemma_held_is_stored(self.node);
            if self.node != 0 {
                tree@.lemma_under_root(self.node);
                tree@.lemma_coherent_branch(0, self.node);
            }
        }
        let found: bool = tree.check_children(self.node);
        proof {
            if found {
                let x = choose|x: usize|
                    tree@.has(x) && #[trigger] tree@.under(x, self.node) && tree@.node(x).dirty;
                assert(tree@.node(x).ancestors.contains(self.node));
            } else {
                assert forall|x: usize| tree@.has(x) && tree@.node(x).dirty implies !(
                #[trigger] tree@.node(x)).ancestors.contains(self.node) by {
                    assert(!tree@.under(x, self.node));
                }
            }
        }
        found
    }

    /// Whether this node itself owes its father a delta.
    pub fn check_dirty_bit<M: Fn(&mut T, &T)>(&self, tree: &Tree<T, M>) -> (dirty: bool)
        requires
            tree.wf(),
            tree@.held(self.id()),
        ensures
            dirty == tree@.node(self.id()).dirty,
    {
        proof {
            tree.lemma_held_is_stored(self.node);
        }
        tree.load_dirty(self.node)
    }

    /// Another handle to the same node.
    pub fn clone<M: Fn(&mut T, &T)>(&self, tree: &mut Tree<T, M>) -> (handle: Mergex<T>)
        requires
            old(tree).wf(),
            old(tree)@.held(self.id()),
            old(tree)@.node(self.id()).handles < usize::MAX,
        ensures
            final(tree).wf(),
            final(tree).merge() == old(tree).merge(),
            handle.id() == self.id(),
            final(tree)@ == old(tree)@.shared(self.id()),
            final(tree)@.node(self.id()).handles == old(tree)@.node(self.id()).handles + 1,
            forall|x: usize|
                old(tree)@.has(x) && x != self.id() ==> #[trigger] final(tree)@.node(x)
                    == old(tree)@.node(x),
    {
        let n: usize = self.node;
        proof {
            tree.lemma_held_is_stored(n);
        }
        let handles: usize = tree.load_handles(n);
        proof {
            tree@.lemma_handles_sound(n, (handles + 1) as usize, tree@.node(n).dead);
        }
        tree.store_handles(n, handles + 1);
        proof {
            tree.lemma_stays_neat(*old(tree));
        }
        Mergex { node: n, slot: PhantomData }
    }

    /// Gives a handle up.
    ///
    /// Dropping the last one only plants a tombstone. It cannot unlink the node:
    /// the node may still owe its father a delta, and only a merge, walking down
    /// from above, is in a position to collect it.
    ///
    /// This is the one way to give a handle up. The end of a scope does not do it.
    pub fn drop<M: Fn(&mut T, &T)>(self, tree: &mut Tree<T, M>)
        requires
            old(tree).wf(),
            old(tree)@.held(self.id()),
        ensures
            final(tree).wf(),
            final(tree).merge() == old(tree).merge(),
            final(tree)@ == old(tree)@.released(self.id()),
            final(tree)@.node(self.id()).handles == old(tree)@.node(self.id()).handles - 1,
            final(tree)@.node(self.id()).dead == (old(tree)@.node(self.id()).handles == 1),
            forall|x: usize|
                old(tree)@.has(x) && x != self.id() ==> #[trigger] final(tree)@.node(x)
                    == old(tree)@.node(x),
    {
        let ghost before = tree@;
        let n: usize = self.node;
        proof {
            tree.lemma_held_is_stored(n);
        }
        let handles: usize = tree.load_handles(n);
        proof {
            before.lemma_handles_sound(n, (handles - 1) as usize, before.node(n).dead || handles == 1);
        }
        tree.store_handles(n, handles - 1);
        if retires(handles) {
            tree.store_dead(n);
        }
        proof {
            assert(tree@ =~= before.released(n));
            tree.lemma_stays_neat(*old(tree));
        }
    }
}

} // verus!
