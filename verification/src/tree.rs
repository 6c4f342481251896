//! The tree itself: its store of nodes and the operations on them.
use std::collections::BTreeMap;
use std::mem::MaybeUninit;

use vstd::prelude::*;

use crate::monoid::may_fold;
use crate::state::NodeState;
use crate::state::TreeState;

verus! {

/// One node. Handles and links refer to it by its name in the store.
#[derive(Clone, Debug)]
pub struct Node<T> {
    // There is deliberately no way to push from a node to its father. A dying
    // node leaves its delta where it is, and the father, which lists it, folds
    // it in the next merge like any other son.
    sons: Vec<usize>,
    // live handles to this node
    handles: usize,
    // set once the last handle is gone. The node keeps its place, and whatever
    // it still owes, until a merge folds it and reaps it.
    dead: bool,
    data: T,
    // not in sync with the father
    dirty: bool,
    // some strict descendant may be dirty. Lets a clean subtree be skipped
    // without a look at its nodes. Never a false negative, which is the only
    // direction that would lose data.
    subtree_dirty: bool,
    // every ancestor, father first
    ancestors: Vec<usize>,
}

impl<T> View for Node<T> {
    type V = NodeState<T>;

    closed spec fn view(&self) -> NodeState<T> {
        NodeState {
            sons: self.sons@,
            handles: self.handles,
            dead: self.dead,
            data: self.data,
            dirty: self.dirty,
            subtree_dirty: self.subtree_dirty,
            ancestors: self.ancestors@,
        }
    }
}

/// A tree of slots that are folded lazily into their father.
///
/// `merge` and `identity` are meant to form a commutative monoid over `T`. A
/// node's data is the delta not yet folded into its father, not a local copy of
/// the aggregate: a fresh son starts at `identity`, and a node goes back to it
/// as soon as its data has been folded upward.
///
/// A node that is unlinked leaves the store, and what it held is freed. So what a
/// tree takes up, and what a read costs, goes by the nodes that are linked. Names are
/// not used again.
#[derive(Debug)]
pub struct Tree<T, M> {
    nodes: BTreeMap<usize, Box<Node<T>>>,
    // the number of names given so far
    named: usize,
    // what the nodes that left the store were like. Nothing at run time: it is for
    // the view alone. `Ghost` by itself has no `Debug`.
    past: MaybeUninit<Ghost<Seq<NodeState<T>>>>,
    // what a node holds when it has nothing pending for its father
    identity: T,
    merge: M,
}

impl<T: Clone, M: Clone> Clone for Tree<T, M> {
    /// A tree of the same shape and in the same state, with clones of the data.
    fn clone(&self) -> (tree: Self)
        ensures
            tree@.nodes.len() == self@.nodes.len(),
            forall|n: usize| #[trigger] tree.stores(n) == self.stores(n),
            forall|n: usize|
                self@.has(n) ==> (#[trigger] tree@.node(n)) == (NodeState {
                    data: tree@.node(n).data,
                    ..self@.node(n)
                }),
            forall|n: usize|
                self.stores(n) ==> cloned(self@.node(n).data, (#[trigger] tree@.node(n)).data),
            cloned(self@.identity, tree@.identity),
            cloned(self.merge(), tree.merge()),
    {
        Tree {
            nodes: self.nodes.clone(),
            named: self.named,
            past: MaybeUninit::new(Ghost(self.bygone())),
            identity: self.identity.clone(),
            merge: self.merge.clone(),
        }
    }
}

impl<T, M> View for Tree<T, M> {
    type V = TreeState<T>;

    closed spec fn view(&self) -> TreeState<T> {
        TreeState {
            nodes: Seq::new(
                self.named as nat,
                |i: int|
                    if self.nodes@.contains_key(i as usize) {
                        self.nodes@[i as usize]@
                    } else {
                        self.bygone()[i]
                    },
            ),
            identity: self.identity,
        }
    }
}

impl<T, M> Tree<T, M> {
    /// The nodes as they were when one left the store last.
    closed spec fn bygone(self) -> Seq<NodeState<T>> {
        vstd::std_specs::maybe_uninit::MaybeUninitAdditionalSpecFns::mem_contents(
            self.past,
        )->Init_0@
    }

    /// The node is in the store.
    pub closed spec fn stores(self, n: usize) -> bool {
        n < self.named && self.nodes@.contains_key(n)
    }

    /// Both trees have the same fold, and the same nodes in store.
    pub open spec fn like(self, other: Self) -> bool {
        &&& self.merge() == other.merge()
        &&& forall|n: usize| #[trigger] self.stores(n) == other.stores(n)
    }

    /// The store holds exactly the nodes that are linked.
    pub open spec fn neat(self) -> bool {
        forall|n: usize| self@.has(n) ==> #[trigger] self.stores(n) == self@.linked(n)
    }
}

impl<T, M> Tree<T, M> {
    /// The fold: father first, then son.
    pub closed spec fn merge(self) -> M {
        self.merge
    }
}

impl<T, M> Tree<T, M> {
    /// A name in the store is a name.
    pub proof fn lemma_stored(self, n: usize)
        requires
            self.stores(n),
        ensures
            self@.has(n),
    {
    }

    /// A tree stays neat as long as no list of sons changes.
    pub proof fn lemma_stays_neat(self, before: Self)
        requires
            before.neat(),
            before@.shaped(),
            self.like(before),
            before@.same_lists(self@),
        ensures
            self.neat(),
    {
        assert forall|n: usize| self@.has(n) implies #[trigger] self.stores(n) == self@.linked(
            n,
        ) by {
            before@.lemma_same_lists(self@, n);
            assert(before.stores(n) == before@.linked(n));
        }
    }
}

impl<T> TreeState<T> {
    /// Node for node, the same sons and the same ancestors.
    pub open spec fn same_lists(self, other: Self) -> bool {
        &&& other.nodes.len() == self.nodes.len()
        &&& forall|x: usize|
            self.has(x) ==> (#[trigger] other.node(x)).sons == self.node(x).sons
                && other.node(x).ancestors == self.node(x).ancestors
    }

    /// The same lists link the same.
    pub proof fn lemma_same_lists(self, other: Self, n: usize)
        requires
            self.shaped(),
            self.same_lists(other),
            self.has(n),
        ensures
            other.linked(n) == self.linked(n),
    {
        if 0 < n {
            assert(self.descends(n));
            assert(other.node(n).ancestors == self.node(n).ancestors);
            assert(other.node(self.father(n)).sons == self.node(self.father(n)).sons);
        }
    }
}

// ---------------------------------------------------------------------------
// One cell of one node
// ---------------------------------------------------------------------------

impl<T, M> Tree<T, M> {
    /// A tree of one node.
    pub(crate) fn plant(data: T, identity: T, merge: M) -> (tree: Self)
        ensures
            tree@ == TreeState::planted(data, identity),
            tree.merge() == merge,
            tree.neat(),
    {
        let root = Node {
            sons: Vec::new(),
            handles: 1,
            dead: false,
            data,
            dirty: false,
            subtree_dirty: false,
            ancestors: Vec::new(),
        };
        let mut nodes: BTreeMap<usize, Box<Node<T>>> = BTreeMap::new();
        let _ = nodes.insert(0, Box::new(root));
        let past = MaybeUninit::new(Ghost(Seq::<NodeState<T>>::empty()));
        let tree = Tree { nodes, named: 1, past, identity, merge };
        assert(tree@ =~= TreeState::planted(data, identity));
        tree
    }

    /// The node that is stored under a name.
    fn node(&self, n: usize) -> (node: &Node<T>)
        requires
            self.stores(n),
        ensures
            self@.has(n),
            node@ == self@.node(n),
    {
        self.nodes.get(&n).unwrap()
    }

    /// Takes a node out of the store, to be put back.
    fn lift(&mut self, n: usize) -> (node: Box<Node<T>>)
        requires
            old(self).stores(n),
        ensures
            node@ == old(self)@.node(n),
            final(self).nodes@ == old(self).nodes@.remove(n),
            final(self).named == old(self).named,
            final(self).past == old(self).past,
            final(self).identity == old(self).identity,
            final(self).merge == old(self).merge,
    {
        self.nodes.remove(&n).unwrap()
    }

    /// Puts a node into the store.
    fn lay(&mut self, n: usize, node: Box<Node<T>>)
        ensures
            final(self).nodes@ == old(self).nodes@.insert(n, node),
            final(self).named == old(self).named,
            final(self).past == old(self).past,
            final(self).identity == old(self).identity,
            final(self).merge == old(self).merge,
    {
        let _ = self.nodes.insert(n, node);
    }

    /// Takes a node out of the store for good.
    pub(crate) fn free(&mut self, n: usize)
        requires
            old(self).stores(n),
        ensures
            final(self)@ == old(self)@,
            final(self).merge() == old(self).merge(),
            forall|x: usize| #[trigger] final(self).stores(x) == (old(self).stores(x) && x != n),
    {
        let ghost nodes = self@.nodes;
        let _ = self.nodes.remove(&n);
        self.past = MaybeUninit::new(Ghost(nodes));
        assert(self@ =~= old(self)@);
    }

    pub(crate) fn load_dirty(&self, n: usize) -> (dirty: bool)
        requires
            self.stores(n),
        ensures
            dirty == self@.node(n).dirty,
    {
        self.node(n).dirty
    }

    pub(crate) fn store_dirty(&mut self, n: usize, dirty: bool)
        requires
            old(self).stores(n),
        ensures
            final(self)@ == old(self)@.with(n, (NodeState { dirty, ..old(self)@.node(n) })),
            final(self).like(*old(self)),
    {
        let mut node = self.lift(n);
        node.dirty = dirty;
        self.lay(n, node);
        assert(self@ =~= old(self)@.with(n, (NodeState { dirty, ..old(self)@.node(n) })));
    }

    pub(crate) fn load_subtree_dirty(&self, n: usize) -> (flag: bool)
        requires
            self.stores(n),
        ensures
            flag == self@.node(n).subtree_dirty,
    {
        self.node(n).subtree_dirty
    }

    pub(crate) fn swap_subtree_dirty(&mut self, n: usize, flag: bool) -> (was: bool)
        requires
            old(self).stores(n),
        ensures
            was == old(self)@.node(n).subtree_dirty,
            final(self)@ == old(self)@.with(
                n,
                (NodeState { subtree_dirty: flag, ..old(self)@.node(n) }),
            ),
            final(self).like(*old(self)),
    {
        let mut node = self.lift(n);
        let was: bool = node.subtree_dirty;
        node.subtree_dirty = flag;
        self.lay(n, node);
        assert(self@ =~= old(self)@.with(
            n,
            (NodeState { subtree_dirty: flag, ..old(self)@.node(n) }),
        ));
        was
    }

    pub(crate) fn load_dead(&self, n: usize) -> (dead: bool)
        requires
            self.stores(n),
        ensures
            dead == self@.node(n).dead,
    {
        self.node(n).dead
    }

    pub(crate) fn store_dead(&mut self, n: usize)
        requires
            old(self).stores(n),
        ensures
            final(self)@ == old(self)@.with(n, (NodeState { dead: true, ..old(self)@.node(n) })),
            final(self).like(*old(self)),
    {
        let mut node = self.lift(n);
        node.dead = true;
        self.lay(n, node);
        assert(self@ =~= old(self)@.with(n, (NodeState { dead: true, ..old(self)@.node(n) })));
    }

    pub(crate) fn load_handles(&self, n: usize) -> (handles: usize)
        requires
            self.stores(n),
        ensures
            handles == self@.node(n).handles,
    {
        self.node(n).handles
    }

    pub(crate) fn store_handles(&mut self, n: usize, handles: usize)
        requires
            old(self).stores(n),
        ensures
            final(self)@ == old(self)@.with(n, (NodeState { handles, ..old(self)@.node(n) })),
            final(self).like(*old(self)),
    {
        let mut node = self.lift(n);
        node.handles = handles;
        self.lay(n, node);
        assert(self@ =~= old(self)@.with(n, (NodeState { handles, ..old(self)@.node(n) })));
    }

    pub(crate) fn has_no_sons(&self, n: usize) -> (empty: bool)
        requires
            self.stores(n),
        ensures
            empty == (self@.node(n).sons.len() == 0),
    {
        self.node(n).sons.len() == 0
    }

    /// The sons of `n` as they are now, to be walked while the list may change.
    pub(crate) fn snapshot_sons(&self, n: usize) -> (sons: Vec<usize>)
        requires
            self.stores(n),
        ensures
            sons@ == self@.node(n).sons,
    {
        let sons = self.node(n).sons.clone();
        assert(sons@ =~= self@.node(n).sons);
        sons
    }

    pub(crate) fn store_sons(&mut self, n: usize, sons: Vec<usize>)
        requires
            old(self).stores(n),
        ensures
            final(self)@ == old(self)@.with(n, (NodeState { sons: sons@, ..old(self)@.node(n) })),
            final(self).like(*old(self)),
    {
        let mut node = self.lift(n);
        node.sons = sons;
        self.lay(n, node);
        assert(self@ =~= old(self)@.with(n, (NodeState { sons: sons@, ..old(self)@.node(n) })));
    }

    /// The number of ancestors of `n`.
    pub(crate) fn depth(&self, n: usize) -> (depth: usize)
        requires
            self.stores(n),
        ensures
            depth == self@.node(n).ancestors.len(),
    {
        self.node(n).ancestors.len()
    }

    /// The ancestor of `n` at a place in its list, the father being first.
    pub(crate) fn ancestor(&self, n: usize, at: usize) -> (ancestor: usize)
        requires
            self.stores(n),
            at < self@.node(n).ancestors.len(),
        ensures
            ancestor == self@.node(n).ancestors[at as int],
    {
        self.node(n).ancestors[at]
    }

    pub(crate) fn data(&self, n: usize) -> (data: &T)
        requires
            self.stores(n),
        ensures
            *data == self@.node(n).data,
    {
        &self.node(n).data
    }

    /// Runs `f` on the data of `n`, raises its dirty bit, and returns what the
    /// bit was before.
    pub(crate) fn write(&mut self, n: usize, f: impl FnOnce(&mut T)) -> (was_dirty: bool)
        requires
            old(self).stores(n),
            forall|slot: &mut T|
                *slot == old(self)@.node(n).data ==> #[trigger] call_requires(f, (slot,)),
        ensures
            was_dirty == old(self)@.node(n).dirty,
            exists|slot: &mut T|
                *slot == old(self)@.node(n).data && *final(slot) == final(self)@.node(n).data
                    && #[trigger] call_ensures(f, (slot,), ()),
            final(self)@ == old(self)@.with(
                n,
                (NodeState {
                    data: final(self)@.node(n).data,
                    dirty: true,
                    ..old(self)@.node(n)
                }),
            ),
            final(self).like(*old(self)),
    {
        let mut node = self.lift(n);
        f(&mut node.data);
        let was_dirty: bool = node.dirty;
        node.dirty = true;
        self.lay(n, node);
        assert(self@ =~= old(self)@.with(
            n,
            (NodeState { data: self@.node(n).data, dirty: true, ..old(self)@.node(n) }),
        ));
        was_dirty
    }
}

impl<T: Clone, M> Tree<T, M> {
    /// Registers a new son of `n` and returns its name.
    pub(crate) fn grow(&mut self, n: usize) -> (son: usize)
        requires
            old(self).stores(n),
            old(self)@.nodes.len() < usize::MAX,
        ensures
            son == old(self)@.nodes.len(),
            cloned(old(self)@.identity, final(self)@.node(son).data),
            final(self)@ == old(self)@.grown(n, final(self)@.node(son).data),
            final(self).merge() == old(self).merge(),
            forall|x: usize| #[trigger] final(self).stores(x) == (old(self).stores(x) || x == son),
    {
        let son: usize = self.named;
        let ghost up = self@.node(n).ancestors;
        let mut ancestors: Vec<usize> = Vec::new();
        ancestors.push(n);
        let mut i: usize = 0;
        while i < self.depth(n)
            invariant
                *self == *old(self),
                self.stores(n),
                up == self@.node(n).ancestors,
                0 <= i <= up.len(),
                ancestors@ == seq![n] + up.take(i as int),
            decreases up.len() - i,
        {
            let a: usize = self.ancestor(n, i);
            ancestors.push(a);
            i = i + 1;
            assert(ancestors@ =~= seq![n] + up.take(i as int));
        }
        assert(up.take(i as int) =~= up);
        let data = self.identity.clone();
        let mut father = self.lift(n);
        father.sons.push(son);
        self.lay(n, father);
        let node = Node {
            sons: Vec::new(),
            handles: 1,
            dead: false,
            data,
            dirty: false,
            subtree_dirty: false,
            ancestors,
        };
        self.lay(son, Box::new(node));
        self.named = son + 1;
        assert(self@ =~= old(self)@.grown(n, data));
        son
    }

    /// Takes the delta of `n` and leaves the identity behind. Cloning the delta
    /// out and leaving it in place would fold it again in the next read.
    pub(crate) fn take(&mut self, n: usize) -> (delta: T)
        requires
            old(self).stores(n),
        ensures
            delta == old(self)@.node(n).data,
            cloned(old(self)@.identity, final(self)@.node(n).data),
            final(self)@ == old(self)@.with(
                n,
                (NodeState {
                    data: final(self)@.node(n).data,
                    dirty: false,
                    ..old(self)@.node(n)
                }),
            ),
            final(self).like(*old(self)),
    {
        let mut delta = self.identity.clone();
        let mut node = self.lift(n);
        node.dirty = false;
        std::mem::swap(&mut delta, &mut node.data);
        self.lay(n, node);
        assert(self@ =~= old(self)@.with(
            n,
            (NodeState { data: self@.node(n).data, dirty: false, ..old(self)@.node(n) }),
        ));
        delta
    }
}

impl<T, M: Fn(&mut T, &T)> Tree<T, M> {
    /// Folds a delta into the data of `n`.
    pub(crate) fn fold(&mut self, n: usize, delta: &T)
        requires
            old(self).stores(n),
            may_fold(old(self).merge(), old(self)@.node(n).data, *delta),
        ensures
            forall|g: spec_fn(T, T) -> T|
                (forall|father: &mut T, son: &T| #[trigger]
                    call_ensures(old(self).merge(), (father, son), ()) ==> *final(father) == g(
                        *father,
                        *son,
                    )) ==> final(self)@.node(n).data == #[trigger] g(
                    old(self)@.node(n).data,
                    *delta,
                ),
            final(self)@ == old(self)@.with(
                n,
                (NodeState { data: final(self)@.node(n).data, ..old(self)@.node(n) }),
            ),
            final(self).like(*old(self)),
    {
        let mut node = self.lift(n);
        (self.merge)(&mut node.data, delta);
        self.lay(n, node);
        assert(self@ =~= old(self)@.with(
            n,
            (NodeState { data: self@.node(n).data, ..old(self)@.node(n) }),
        ));
    }
}

} // verus!
