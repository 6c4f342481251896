//! What each operation changes, and what it leaves alone.
use vstd::prelude::*;

use crate::climb::Climb;
use crate::interleave::CrewState;
use crate::interleave::TaskState;
use crate::state::lemma_filter_agrees;
use crate::state::lemma_filter_holds;
use crate::state::lemma_filter_keeps_all;
use crate::state::NodeState;
use crate::state::TreeState;
use crate::walk::picked;
use crate::walk::Found;
use crate::walk::Stage;
use crate::walk::WalkState;

verus! {

// ---------------------------------------------------------------------------
// The owner of a tree
// ---------------------------------------------------------------------------

impl<T> TreeState<T> {
    /// A new tree is one node, held once, clean, with no sons and no ancestors, and it
    /// reads as what it was built with.
    pub proof fn law_a_tree_begins_as_its_root(data: T, identity: T, g: spec_fn(T, T) -> T)
        ensures
            Self::planted(data, identity).nodes.len() == 1,
            Self::planted(data, identity).identity == identity,
            ({
                let root = Self::planted(data, identity).node(0);
                &&& root.data == data
                &&& root.handles == 1
                &&& !root.dead
                &&& !root.dirty
                &&& !root.subtree_dirty
                &&& root.sons.len() == 0
                &&& root.ancestors.len() == 0
            }),
            Self::planted(data, identity).folded(g, 0) == data,
    {
    }

    /// A new son hangs from the node it was registered through, is the last of its
    /// sons, and is held once, whatever the state of its father. Nothing else changes
    /// at any node.
    pub proof fn law_a_new_son_hangs_from_its_father(self, n: usize, data: T, x: usize)
        requires
            self.has(n),
            self.has(x),
            self.nodes.len() < usize::MAX,
        ensures
            ({
                let new = self.grown(n, data);
                let name = self.nodes.len() as usize;
                let son = new.node(name);
                &&& new.nodes.len() == self.nodes.len() + 1
                &&& new.identity == self.identity
                &&& son.handles == 1
                &&& !son.dead
                &&& son.data == data
                &&& !son.dirty
                &&& !son.subtree_dirty
                &&& son.sons.len() == 0
                &&& son.ancestors == seq![n] + self.node(n).ancestors
                &&& new.node(n).sons == self.node(n).sons.push(name)
                &&& x != n ==> new.node(x).sons == self.node(x).sons
                &&& new.node(x).handles == self.node(x).handles
                &&& new.node(x).dead == self.node(x).dead
                &&& new.node(x).data == self.node(x).data
                &&& new.node(x).dirty == self.node(x).dirty
                &&& new.node(x).subtree_dirty == self.node(x).subtree_dirty
                &&& new.node(x).ancestors == self.node(x).ancestors
            }),
    {
    }

    /// Cloning a handle leaves one handle more at its node, the same number at every
    /// other node, and everything else as it is.
    pub proof fn law_a_clone_is_counted_once(self, n: usize, x: usize)
        requires
            self.has(n),
            self.has(x),
            self.node(n).handles < usize::MAX,
        ensures
            self.shared(n).nodes.len() == self.nodes.len(),
            self.shared(n).identity == self.identity,
            self.shared(n).node(n).handles == self.node(n).handles + 1,
            x != n ==> self.shared(n).node(x).handles == self.node(x).handles,
            self.shared(n).node(x) == (NodeState {
                handles: self.shared(n).node(x).handles,
                ..self.node(x)
            }),
    {
    }

    /// Giving a handle up leaves one handle less at its node, the same number at every
    /// other node, and everything else as it is, but that the last one to go leaves
    /// the node dead.
    pub proof fn law_a_drop_is_counted_once(self, n: usize, x: usize)
        requires
            self.has(n),
            self.node(n).handles > 0,
            self.has(x),
        ensures
            self.released(n).nodes.len() == self.nodes.len(),
            self.released(n).identity == self.identity,
            self.released(n).node(n).handles == self.node(n).handles - 1,
            self.released(n).node(n).dead == (self.node(n).dead || self.node(n).handles == 1),
            x != n ==> self.released(n).node(x) == self.node(x),
            self.released(n).node(x) == (NodeState {
                handles: self.released(n).node(x).handles,
                dead: self.released(n).node(x).dead,
                ..self.node(x)
            }),
    {
    }

    /// A clone and a drop, of either handle, leave the tree as it was: the node is
    /// still held.
    pub proof fn law_a_clone_and_a_drop_cancel(self, n: usize)
        requires
            self.has(n),
            0 < self.node(n).handles < usize::MAX,
        ensures
            self.shared(n).released(n) == self,
            self.shared(n).released(n).node(n).handles > 0,
    {
        let both = self.shared(n).released(n);
        assert(both.node(n) =~= self.node(n));
        assert(both =~= self);
    }

    /// A write is to its own node: that one holds what was written and is dirty, the
    /// flags of all its ancestors are up, and nothing else changes anywhere.
    pub proof fn law_a_write_is_to_its_own_node(self, n: usize, data: T, x: usize, i: int)
        requires
            self.shaped(),
            self.has(n),
            self.has(x),
            0 <= i < self.node(n).ancestors.len(),
        ensures
            self.written(n, data).nodes.len() == self.nodes.len(),
            self.written(n, data).identity == self.identity,
            self.written(n, data).node(n).data == data,
            self.written(n, data).node(n).dirty,
            self.written(n, data).node(self.node(n).ancestors[i]).subtree_dirty,
            x != n ==> self.written(n, data).node(x).data == self.node(x).data,
            x != n ==> self.written(n, data).node(x).dirty == self.node(x).dirty,
            !self.node(n).ancestors.contains(x) ==> self.written(n, data).node(x).subtree_dirty
                == self.node(x).subtree_dirty,
            self.written(n, data).node(x) == (NodeState {
                data: self.written(n, data).node(x).data,
                dirty: self.written(n, data).node(x).dirty,
                subtree_dirty: self.written(n, data).node(x).subtree_dirty,
                ..self.node(x)
            }),
    {
        assert(self.nodes[x as int] == self.node(x));
        assert(self.nodes[n as int] == self.node(n));
        self.lemma_ancestor(n, i);
    }
}

impl<T: Clone> TreeState<T> {
    /// A read moves data, lowers bits and flags, and shortens lists, at its node and
    /// below it. It counts no handle, declares nobody dead, moves no node, and touches
    /// nothing outside. Its node owes from then on what it owed before, and, away from
    /// the root, whatever came from below.
    pub proof fn law_a_read_stays_below_its_node(self, new: Self, n: usize, x: usize)
        requires
            self.collected(new, n),
            self.has(n),
            self.has(x),
        ensures
            new.nodes.len() == self.nodes.len(),
            new.identity == self.identity,
            new.node(x).handles == self.node(x).handles,
            new.node(x).dead == self.node(x).dead,
            new.node(x).ancestors == self.node(x).ancestors,
            x != n && !self.node(x).ancestors.contains(n) ==> new.node(x) == self.node(x),
            !new.node(n).subtree_dirty,
            new.node(n).dirty == (self.node(n).dirty || n != 0 && exists|y: usize|
                self.has(y) && #[trigger] self.under(y, n) && self.node(y).dirty),
            self.node(x).ancestors.contains(n) ==> !new.node(x).dirty,
            self.node(x).ancestors.contains(n) && self.node(
                self.node(x).ancestors[0],
            ).sons.contains(x) ==> !new.node(x).subtree_dirty,
    {
        if x != n && !self.node(x).ancestors.contains(n) {
            assert(!self.within(x, n));
        }
        if self.node(x).ancestors.contains(n) {
            assert(self.under(x, n));
            assert(self.drained(new, x));
        }
    }

    /// A read goes no further than a clear flag: a node whose flag is down keeps all its
    /// sons, and where the flag of the node itself is down, a read changes nothing at all.
    pub proof fn law_a_read_stops_at_a_clear_flag(
        self,
        g: spec_fn(T, T) -> T,
        new: Self,
        n: usize,
        x: usize,
    )
        requires
            self.sound(),
            self.held(n),
            self.read(g, new, n),
            self.has(x),
            !self.node(x).subtree_dirty,
        ensures
            new.node(x).sons == self.node(x).sons,
            x == n ==> new == self && new.node(n).data == self.node(n).data,
    {
        if x == n {
            self.law_a_clear_flag_hides_nothing(g, n);
            assert forall|y: int| 0 <= y < self.nodes.len() implies #[trigger] new.nodes[y]
                == self.nodes[y] by {
                let z = y as usize;
                assert(new.nodes[y] == new.node(z) && self.nodes[y] == self.node(z));
                assert(new.node(z).handles == self.node(z).handles);
                if z == n {
                    assert(new.node(n) =~= self.node(n));
                } else if self.under(z, n) {
                    assert(self.drained(new, z));
                    assert(!self.node(z).dirty);
                    assert(!self.stirred(z)) by {
                        if self.stirred(z) {
                            let w = choose|w: usize|
                                self.has(w) && #[trigger] self.under(w, z) && self.node(w).dirty;
                            self.lemma_under_trans(w, z, n);
                        }
                    }
                    if self.node(z).subtree_dirty {
                        assert(!self.linked(z)) by {
                            if self.linked(z) {
                                if n != 0 {
                                    self.lemma_under_root(n);
                                    self.lemma_coherent_branch(0, n);
                                }
                                self.lemma_dirty_flags_up(z, n);
                            }
                        }
                        assert(self.spent(z));
                        lemma_filter_keeps_all(self.node(z).sons, |s: usize| !new.spent(s));
                    }
                    assert(new.node(z) =~= self.node(z));
                } else {
                    assert(new.node(z) == self.node(z));
                }
            }
            assert(new =~= self);
        } else if self.under(x, n) {
            assert(self.drained(new, x));
        } else {
            assert(!self.within(x, n));
        }
    }

    /// Folding goes through the sons in the order of their list, oldest first, each
    /// one with everything below it, and leaves out those that neither are dirty nor
    /// have anything dirty below them.
    pub proof fn law_folding_is_oldest_first(self, g: spec_fn(T, T) -> T, n: usize)
        requires
            self.shaped(),
            self.has(n),
        ensures
            self.folded(g, n) == self.node(n).sons.fold_left(
                self.node(n).data,
                |sum: T, s: usize|
                    if self.node(s).dirty || exists|x: usize|
                        self.has(x) && #[trigger] self.under(x, s) && self.node(x).dirty {
                        g(sum, self.folded(g, s))
                    } else {
                        sum
                    },
            ),
    {
        let f = |sum: T, s: usize|
            if self.node(s).dirty || exists|x: usize|
                self.has(x) && #[trigger] self.under(x, s) && self.node(x).dirty {
                g(sum, self.folded(g, s))
            } else {
                sum
            };
        let len = self.node(n).sons.len();
        self.lemma_folds_left(g, n, len, f);
        assert(self.node(n).sons.take(len as int) =~= self.node(n).sons);
    }

    proof fn lemma_folds_left(
        self,
        g: spec_fn(T, T) -> T,
        n: usize,
        k: nat,
        f: spec_fn(T, usize) -> T,
    )
        requires
            self.shaped(),
            self.has(n),
            k <= self.node(n).sons.len(),
            forall|sum: T, s: usize| #[trigger]
                f(sum, s) == if self.pending(s) {
                    g(sum, self.folded(g, s))
                } else {
                    sum
                },
        ensures
            self.folded_upto(g, n, k) == self.node(n).sons.take(k as int).fold_left(
                self.node(n).data,
                f,
            ),
        decreases k,
    {
        let sons = self.node(n).sons;
        reveal_with_fuel(Seq::fold_left, 2);
        if k > 0 {
            self.lemma_folds_left(g, n, (k - 1) as nat, f);
            self.lemma_son(n, k - 1);
            assert(sons.take(k as int).drop_last() =~= sons.take(k - 1));
            assert(sons.take(k as int).last() == sons[k - 1]);
        }
    }
}

// ---------------------------------------------------------------------------
// A crew
// ---------------------------------------------------------------------------

impl<T> CrewState<T> {
    /// A write that is begun changes the data and the dirty bit of its node, at once,
    /// and nothing else in the tree. The worker is to flag the ancestors next, from the
    /// father to the root, unless the node was dirty already or has no ancestors.
    /// Nobody else has anything else in hand than before.
    pub proof fn law_a_write_begins_at_its_node(
        self,
        i: int,
        n: usize,
        data: T,
        x: usize,
        j: int,
    )
        requires
            self.tree.shaped(),
            self.employs(i),
            self.employs(j),
            self.tree.has(n),
            self.tree.has(x),
        ensures
            ({
                let new = self.began_write(i, n, data);
                let was = self.tree.node(n);
                &&& new.tree.nodes.len() == self.tree.nodes.len()
                &&& new.tree.identity == self.tree.identity
                &&& new.tree.node(n) == (NodeState { data, dirty: true, ..was })
                &&& x != n ==> new.tree.node(x) == self.tree.node(x)
                &&& new.tasks.len() == self.tasks.len()
                &&& j != i ==> new.tasks[j] == self.tasks[j]
                &&& was.dirty || was.ancestors.len() == 0 ==> new.tasks[i] is Idle
                &&& !was.dirty && was.ancestors.len() > 0 ==> {
                    &&& new.tasks[i] is Mark
                    &&& new.tasks[i]->Mark_0 == n
                    &&& new.tasks[i]->Mark_1.next == 0
                    &&& new.tasks[i]->Mark_1.end == was.ancestors.len()
                }
            }),
    {
        self.tree.lemma_shallow(n);
    }

    /// A read that is begun has touched nothing, and has everything before it, whatever
    /// the others have in hand: the next thing its worker does is to lower the flag of
    /// the node that it reads.
    pub proof fn law_a_read_begins_with_everything_before_it(
        self,
        g: spec_fn(T, T) -> T,
        fresh: T,
        i: int,
        n: usize,
        j: int,
    )
        requires
            self.employs(i),
            self.employs(j),
            self.tree.has(n),
        ensures
            ({
                let new = self.began_read(i, n);
                let walk = new.tasks[i]->Read_0;
                &&& new.tree == self.tree
                &&& new.tasks.len() == self.tasks.len()
                &&& j != i ==> new.tasks[j] == self.tasks[j]
                &&& new.tasks[i] is Read
                &&& walk.origin == n
                &&& walk.frames.len() == 0
                &&& walk.stage is Enter
                &&& !new.stepped(g, fresh, i).tree.node(n).subtree_dirty
                &&& self.tree.node(n).subtree_dirty ==> {
                    let next = new.stepped(g, fresh, i).tasks[i]->Read_0;
                    &&& next.frames.len() == 1
                    &&& next.place(0) == n
                    &&& next.stage is List
                }
            }),
    {
    }

    /// Giving a handle up leaves one handle less at its node, the same number at every
    /// other node, and everything else in the tree as it is. Whoever gave up the last
    /// one is to declare the node dead next.
    pub proof fn law_a_drop_takes_one_handle(self, i: int, n: usize, x: usize, j: int)
        requires
            self.employs(i),
            self.employs(j),
            self.tree.held(n),
            self.tree.has(x),
        ensures
            ({
                let new = self.began_release(i, n);
                let was = self.tree.node(n);
                &&& new.tree.nodes.len() == self.tree.nodes.len()
                &&& new.tree.identity == self.tree.identity
                &&& new.tree.node(n).handles == was.handles - 1
                &&& new.tree.node(n) == (NodeState { handles: new.tree.node(n).handles, ..was })
                &&& x != n ==> new.tree.node(x) == self.tree.node(x)
                &&& new.tasks.len() == self.tasks.len()
                &&& j != i ==> new.tasks[j] == self.tasks[j]
                &&& was.handles == 1 ==> new.tasks[i] == TaskState::<T>::Retire(n)
                &&& was.handles > 1 ==> new.tasks[i] is Idle
            }),
    {
    }

    /// Cloning a handle leaves one handle more at its node, the same number at every
    /// other node, and everything else as it is.
    pub proof fn law_a_clone_adds_one_handle(self, n: usize, x: usize)
        requires
            self.tree.has(n),
            self.tree.has(x),
            self.tree.node(n).handles < usize::MAX,
        ensures
            ({
                let new = self.shared(n);
                let was = self.tree.node(n);
                &&& new.tree.nodes.len() == self.tree.nodes.len()
                &&& new.tree.identity == self.tree.identity
                &&& new.tree.node(n).handles == was.handles + 1
                &&& new.tree.node(n) == (NodeState { handles: new.tree.node(n).handles, ..was })
                &&& x != n ==> new.tree.node(x) == self.tree.node(x)
                &&& new.tasks == self.tasks
            }),
    {
    }

    /// A son that is registered hangs from the node it was registered through, is the
    /// last of its sons, and is held once, whatever the state of its father and whatever
    /// the others have in hand. No other list of sons changes, and nothing else does.
    pub proof fn law_a_registered_son_hangs_from_its_father(self, n: usize, data: T, x: usize)
        requires
            self.tree.has(n),
            self.tree.has(x),
            self.tree.nodes.len() < usize::MAX,
        ensures
            ({
                let new = self.registered(n, data);
                let name = self.tree.nodes.len() as usize;
                let son = new.tree.node(name);
                let was = self.tree.node(n);
                &&& new.tree.nodes.len() == self.tree.nodes.len() + 1
                &&& new.tree.identity == self.tree.identity
                &&& son.handles == 1
                &&& !son.dead
                &&& son.data == data
                &&& !son.dirty
                &&& !son.subtree_dirty
                &&& son.sons.len() == 0
                &&& son.ancestors == seq![n] + was.ancestors
                &&& new.tree.node(n) == (NodeState { sons: was.sons.push(name), ..was })
                &&& x != n ==> new.tree.node(x) == self.tree.node(x)
                &&& new.tasks == self.tasks
            }),
    {
    }

    /// What a step does depends on the tree and on what the worker has in hand, and on
    /// nothing else: not on who the worker is, nor on what the others are about. And a
    /// step leaves the others what they have in hand.
    pub proof fn law_a_step_looks_at_nobody_else(
        self,
        other: Self,
        g: spec_fn(T, T) -> T,
        fresh: T,
        i: int,
        j: int,
        k: int,
    )
        requires
            self.employs(i),
            self.employs(k),
            other.employs(j),
            self.tree == other.tree,
            self.tasks[i] == other.tasks[j],
        ensures
            self.stepped(g, fresh, i).tree == other.stepped(g, fresh, j).tree,
            self.stepped(g, fresh, i).tasks[i] == other.stepped(g, fresh, j).tasks[j],
            self.stepped(g, fresh, i).tasks.len() == self.tasks.len(),
            k != i ==> self.stepped(g, fresh, i).tasks[k] == self.tasks[k],
    {
    }
}

impl<T> CrewState<T> {
    /// A worker with nothing in hand does nothing.
    pub proof fn law_an_idle_worker_does_nothing(self, g: spec_fn(T, T) -> T, fresh: T, i: int)
        requires
            self.employs(i),
            self.tasks[i] is Idle,
        ensures
            self.stepped(g, fresh, i) == self,
    {
        assert(self.stepped(g, fresh, i).tasks =~= self.tasks);
    }
}

impl<T: Clone> CrewState<T> {
    /// No step of anybody counts a handle, registers or moves a node, or declares a node
    /// dead that was given up by nobody.
    pub proof fn law_steps_count_no_handles(
        self,
        g: spec_fn(T, T) -> T,
        fresh: T,
        i: int,
        x: usize,
    )
        requires
            self.sound(),
            self.employs(i),
            self.tree.has(x),
        ensures
            ({
                let new = self.stepped(g, fresh, i).tree;
                &&& new.nodes.len() == self.tree.nodes.len()
                &&& new.identity == self.tree.identity
                &&& new.node(x).handles == self.tree.node(x).handles
                &&& new.node(x).ancestors == self.tree.node(x).ancestors
                &&& new.node(x).dead == (self.tree.node(x).dead || self.tasks[i]
                    == TaskState::<T>::Retire(x))
            }),
    {
        let tree = self.tree;
        assert(tree.admits(self.tasks[i]));
        match self.tasks[i] {
            TaskState::Read(walk) => {
                tree.lemma_touches_a_node(walk);
            },
            TaskState::Mark(n, climb) => {
                tree.lemma_ancestor(n, climb.next as int);
            },
            _ => {},
        }
    }

    /// A step of a write raises the flag of the ancestor whose turn it is, and does
    /// nothing else. It is the last one where that flag was up already, or where the
    /// ancestor was the root; otherwise it is the turn of the next ancestor up.
    pub proof fn law_a_climb_raises_one_flag(
        self,
        g: spec_fn(T, T) -> T,
        fresh: T,
        i: int,
        x: usize,
    )
        requires
            self.sound(),
            self.employs(i),
            self.tasks[i] is Mark,
            self.tree.has(x),
        ensures
            ({
                let new = self.stepped(g, fresh, i);
                let n = self.tasks[i]->Mark_0;
                let at = self.tasks[i]->Mark_1.next;
                let a = self.tree.node(n).ancestors[at as int];
                &&& self.tree.has(a)
                &&& new.tree.node(a) == (NodeState { subtree_dirty: true, ..self.tree.node(a) })
                &&& x != a ==> new.tree.node(x) == self.tree.node(x)
                &&& self.tree.node(a).subtree_dirty || a == 0 ==> new.tasks[i] is Idle
                &&& !self.tree.node(a).subtree_dirty && a != 0 ==> new.tasks[i]
                    == TaskState::<T>::Mark(
                    n,
                    Climb { next: (at + 1) as usize, end: self.tasks[i]->Mark_1.end },
                )
            }),
    {
        assert(self.tree.admits(self.tasks[i]));
        let n = self.tasks[i]->Mark_0;
        let at = self.tasks[i]->Mark_1.next;
        self.tree.lemma_ancestor(n, at as int);
        self.tree.lemma_root_comes_last(n, at as int);
    }

    /// A step of a handle that goes away declares its node dead, and does nothing else.
    pub proof fn law_a_last_handle_leaves_a_tombstone(
        self,
        g: spec_fn(T, T) -> T,
        fresh: T,
        i: int,
        x: usize,
    )
        requires
            self.sound(),
            self.employs(i),
            self.tasks[i] is Retire,
            self.tree.has(x),
        ensures
            ({
                let new = self.stepped(g, fresh, i);
                let n = self.tasks[i]->Retire_0;
                &&& new.tree.node(n) == (NodeState { dead: true, ..self.tree.node(n) })
                &&& x != n ==> new.tree.node(x) == self.tree.node(x)
                &&& new.tasks[i] is Idle
            }),
    {
        assert(self.tree.admits(self.tasks[i]));
    }

    /// The last step of a read leaves its node dirty where something was folded into it
    /// and it has a father, and does nothing else to the tree. Where the node was clean
    /// until then, its ancestors are to be flagged next.
    pub proof fn law_a_read_at_its_end_owes_what_it_took_in(
        self,
        g: spec_fn(T, T) -> T,
        fresh: T,
        i: int,
        x: usize,
    )
        requires
            self.sound(),
            self.employs(i),
            self.tasks[i] is Read,
            self.tasks[i]->Read_0.stage is Done,
            self.tree.has(x),
        ensures
            ({
                let new = self.stepped(g, fresh, i);
                let n = self.tasks[i]->Read_0.origin;
                let changed = self.tasks[i]->Read_0.stage->Done_0;
                let was = self.tree.node(n);
                &&& new.tree.node(n) == (NodeState { dirty: was.dirty || changed && n != 0, ..was })
                &&& x != n ==> new.tree.node(x) == self.tree.node(x)
                &&& !changed || n == 0 || was.dirty ==> new.tasks[i] is Idle
                &&& changed && n != 0 && !was.dirty ==> new.tasks[i] == TaskState::<T>::Mark(
                    n,
                    Climb { next: 0, end: was.ancestors.len() as usize },
                )
            }),
    {
        assert(self.tree.admits(self.tasks[i]));
        let n = self.tasks[i]->Read_0.origin;
        self.tree.lemma_shallow(n);
        if 0 < n {
            assert(self.tree.descends(n));
        }
    }

    /// Any other step of a read touches at most one node, at or below the one it reads,
    /// and there it does one of four things: it lowers the flag; it takes the data, leaves
    /// `fresh` in its place, lowers the dirty bit, and has the data in hand; it folds what
    /// it has in hand into the data; or it unlinks sons that nobody holds and that owe
    /// nothing.
    pub proof fn law_a_read_touches_one_node_at_a_time(
        self,
        g: spec_fn(T, T) -> T,
        fresh: T,
        i: int,
        x: usize,
    )
        requires
            self.sound(),
            self.employs(i),
            self.tasks[i] is Read,
            !(self.tasks[i]->Read_0.stage is Done),
            self.tree.has(x),
        ensures
            ({
                let new = self.stepped(g, fresh, i);
                let walk = self.tasks[i]->Read_0;
                let next = new.tasks[i]->Read_0;
                let was = self.tree.node(x);
                let now = new.tree.node(x);
                &&& new.tasks[i] is Read
                &&& next.origin == walk.origin
                &&& now != was ==> x == walk.origin || was.ancestors.contains(walk.origin)
                &&& now != was ==> {
                    ||| now == (NodeState { subtree_dirty: false, ..was })
                    ||| now == (NodeState { data: fresh, dirty: false, ..was }) && next.stage
                        == Stage::<T>::Fold(was.data)
                    ||| walk.stage is Fold && now == (NodeState {
                        data: g(was.data, walk.stage->Fold_0),
                        ..was
                    }) && !(next.stage is Fold)
                    ||| now == (NodeState { sons: now.sons, ..was }) && forall|s: usize|
                        #![trigger now.sons.contains(s)]
                        now.sons.contains(s) ==> was.sons.contains(s)
                }
                &&& forall|s: usize| #[trigger]
                    was.sons.contains(s) && !now.sons.contains(s) ==> {
                        &&& self.tree.node(s).handles == 0
                        &&& self.tree.node(s).dead
                        &&& !self.tree.node(s).dirty
                        &&& self.tree.node(s).sons.len() == 0
                    }
                &&& walk.stage is Fold ==> {
                    let p = walk.place(walk.frames.len() - 1);
                    new.tree.node(p).data == g(self.tree.node(p).data, walk.stage->Fold_0)
                }
            }),
    {
        let tree = self.tree;
        let walk = self.tasks[i]->Read_0;
        assert(tree.admits(self.tasks[i]));
        tree.lemma_touches_a_node(walk);
        let last = walk.frames.len() - 1;
        if walk.stage is Enter || walk.stage is Take {
            tree.lemma_within_origin(walk, walk.frames.len() as int);
        }
        if walk.stage is Fold || walk.stage is Unlink {
            tree.lemma_within_origin(walk, last);
        }
        let new = self.stepped(g, fresh, i);
        let was = tree.node(x);
        let now = new.tree.node(x);
        if walk.stage is Unlink && x == walk.place(last) {
            let marked = picked(walk.top().sons, walk.top().spent);
            let keep = |s: usize|
                !(marked.contains(s) && tree.node(s).handles == 0 && !tree.node(s).dirty);
            assert(now.sons == was.sons.filter(keep));
            assert forall|s: usize| #[trigger] was.sons.contains(s) && !now.sons.contains(s) implies {
                &&& tree.node(s).handles == 0
                &&& tree.node(s).dead
                &&& !tree.node(s).dirty
                &&& tree.node(s).sons.len() == 0
            } by {
                lemma_filter_holds(was.sons, keep, s);
                let k = marked.index_of(s);
                assert(marked[k] == s);
                let place = walk.frames[last].spent[k];
                assert(tree.spent(walk.frames[last].sons[place as int]));
            }
            assert forall|s: usize| #![trigger now.sons.contains(s)] now.sons.contains(s) implies
                was.sons.contains(s) by {
                lemma_filter_holds(was.sons, keep, s);
            }
        }
    }
}

impl<T: Clone> CrewState<T> {
    /// What a read finds at a step is what is there at that moment, at the son whose turn
    /// it is or at the node that the walk is inside of, and its walk goes on from that.
    /// The step does what it is there for: the flag is down after it, or the delta is
    /// taken, or folded, or the sons that were noted as spent are gone from the list but
    /// for those that somebody holds or that owe something, the others in the order that
    /// they were in. No other node changes, and a step that only looks changes nothing.
    pub proof fn law_a_read_finds_what_is_there(
        self,
        g: spec_fn(T, T) -> T,
        fresh: T,
        i: int,
        other: usize,
    )
        requires
            self.sound(),
            self.employs(i),
            self.tasks[i] is Read,
            self.tree.has(other),
        ensures
            ({
                let walk = self.tasks[i]->Read_0;
                let after = self.stepped(g, fresh, i).tree;
                let next = self.stepped(g, fresh, i).tasks[i]->Read_0;
                let len = walk.frames.len();
                let s = if len == 0 {
                    walk.origin
                } else {
                    walk.frames[len - 1].sons[walk.frames[len - 1].at as int]
                };
                let f = if len <= 1 {
                    walk.origin
                } else {
                    walk.frames[len - 2].sons[walk.frames[len - 2].at as int]
                };
                let son = self.tree.node(s);
                let father = self.tree.node(f);
                &&& walk.stage is Enter || walk.stage is Take ==> self.tree.has(s) && (other != s
                    ==> after.node(other) == self.tree.node(other))
                &&& walk.stage is Fold || walk.stage is Unlink ==> self.tree.has(f) && (other != f
                    ==> after.node(other) == self.tree.node(other))
                &&& match walk.stage {
                    Stage::Enter => {
                        &&& next == walk.next(Found::Flag(son.subtree_dirty))
                        &&& after.node(s) == (NodeState { subtree_dirty: false, ..son })
                    },
                    Stage::List => after == self.tree && next == walk.next(
                        Found::Sons(father.sons),
                    ),
                    Stage::Dirty(changed) => after == self.tree && next == walk.next(
                        Found::Flag(son.dirty),
                    ),
                    Stage::Take => {
                        &&& next == walk.next(Found::Delta(son.data))
                        &&& after.node(s) == (NodeState { data: fresh, dirty: false, ..son })
                    },
                    Stage::Fold(delta) => {
                        &&& next == walk.next(Found::Ack)
                        &&& after.node(f) == (NodeState { data: g(father.data, delta), ..father })
                    },
                    Stage::Dead => after == self.tree && next == walk.next(Found::Flag(son.dead)),
                    Stage::Handles => after == self.tree && next == walk.next(
                        Found::Count(son.handles),
                    ),
                    Stage::Clean => after == self.tree && next == walk.next(
                        Found::Flag(son.dirty),
                    ),
                    Stage::Empty => after == self.tree && next == walk.next(
                        Found::Flag(son.sons.len() == 0),
                    ),
                    Stage::Unlink => {
                        let noted = walk.frames[len - 1];
                        &&& next == walk.next(Found::Ack)
                        &&& after.node(f) == (NodeState { sons: after.node(f).sons, ..father })
                        &&& after.node(f).sons == father.sons.filter(
                            |x: usize| after.node(f).sons.contains(x),
                        )
                        &&& forall|x: usize| #[trigger]
                            after.node(f).sons.contains(x) == (father.sons.contains(x) && !(exists|
                                k: int,
                            |
                                0 <= k < noted.spent.len() && noted.sons[#[trigger] noted.spent[k] as int]
                                    == x && self.tree.node(x).handles == 0 && !self.tree.node(
                                    x,
                                ).dirty))
                    },
                    Stage::Done(changed) => true,
                }
            }),
    {
        let tree = self.tree;
        let walk = self.tasks[i]->Read_0;
        assert(tree.admits(self.tasks[i]));
        tree.lemma_touches_a_node(walk);
        if walk.stage is Unlink {
            let len = walk.frames.len();
            let noted = walk.frames[len - 1];
            let f = walk.place(len - 1);
            let father = tree.node(f);
            let marked = picked(noted.sons, noted.spent);
            let keep = |s: usize|
                !(marked.contains(s) && tree.node(s).handles == 0 && !tree.node(s).dirty);
            let after = self.stepped(g, fresh, i).tree;
            assert(after.node(f).sons == father.sons.filter(keep));
            assert forall|k: int| 0 <= k < father.sons.len() implies keep(
                #[trigger] father.sons[k],
            ) == after.node(f).sons.contains(father.sons[k]) by {
                lemma_filter_holds(father.sons, keep, father.sons[k]);
                assert(father.sons.contains(father.sons[k]));
            }
            lemma_filter_agrees(
                father.sons,
                keep,
                |x: usize| after.node(f).sons.contains(x),
            );
            assert forall|x: usize| #[trigger]
                after.node(f).sons.contains(x) == (father.sons.contains(x) && !(exists|k: int|
                    0 <= k < noted.spent.len() && noted.sons[#[trigger] noted.spent[k] as int] == x
                        && tree.node(x).handles == 0 && !tree.node(x).dirty)) by {
                lemma_filter_holds(father.sons, keep, x);
                if marked.contains(x) {
                    let k = marked.index_of(x);
                    assert(noted.sons[noted.spent[k] as int] == x);
                }
                if exists|k: int|
                    0 <= k < noted.spent.len() && noted.sons[#[trigger] noted.spent[k] as int] == x
                        && tree.node(x).handles == 0 && !tree.node(x).dirty {
                    let k = choose|k: int|
                        0 <= k < noted.spent.len() && noted.sons[#[trigger] noted.spent[k] as int]
                            == x && tree.node(x).handles == 0 && !tree.node(x).dirty;
                    assert(marked[k] == x);
                }
            }
        }
    }
}

impl<T> TreeState<T> {
    /// What the next touch of a walk goes to is a node.
    proof fn lemma_touches_a_node(self, walk: WalkState<usize, T>)
        requires
            self.shaped(),
            self.has(walk.origin),
            self.vouches(walk),
        ensures
            walk.frames.len() > 0 ==> self.has(walk.place(walk.frames.len() - 1)),
            walk.stage is Enter || walk.stage is Take ==> self.has(
                walk.place(walk.frames.len() as int),
            ),
    {
        if walk.frames.len() > 0 {
            self.lemma_place(walk, walk.frames.len() - 1);
        }
        if walk.stage is Enter || walk.stage is Take {
            self.lemma_place(walk, walk.frames.len() as int);
        }
    }

    /// The root is the last of the ancestors, and no other is.
    proof fn lemma_root_comes_last(self, n: usize, i: int)
        requires
            self.shaped(),
            self.has(n),
            0 <= i < self.node(n).ancestors.len(),
        ensures
            self.node(n).ancestors[i] == 0 <==> i == self.node(n).ancestors.len() - 1,
        decreases n,
    {
        assert(self.descends(n));
        let f = self.father(n);
        let up = self.node(f).ancestors;
        if 0 < f {
            assert(self.descends(f));
        }
        if 0 < i {
            assert(self.node(n).ancestors[i] == up[i - 1]);
            self.lemma_root_comes_last(f, i - 1);
        }
    }
}

} // verus!
