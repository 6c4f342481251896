//! Threads at work on one tree, as mathematics.
//!
//! Every thread is a worker with at most one operation in hand. The workers
//! take steps in any order; each step is one touch of the tree.
use vstd::prelude::*;

use crate::climb::Climb;
use crate::state::NodeState;
use crate::state::TreeState;
use crate::walk::Deed;
use crate::walk::Found;
use crate::walk::Stage;
use crate::walk::WalkState;

verus! {

/// What one worker has in hand.
#[verifier::ext_equal]
pub enum TaskState<T> {
    /// A read, on its way down.
    Read(WalkState<usize, T>),
    /// A write, on its way up from a node.
    Mark(usize, Climb),
    /// A last handle given up, the node not declared dead yet.
    Retire(usize),
    /// Nothing.
    Idle,
}

/// A tree and the workers on it.
#[verifier::ext_equal]
pub struct CrewState<T> {
    /// The tree.
    pub tree: TreeState<T>,
    /// What each worker has in hand.
    pub tasks: Seq<TaskState<T>>,
}

impl<T> TaskState<T> {
    /// A write on its way up, or nothing where the way is at its end.
    pub open spec fn marking(node: usize, climb: Climb) -> Self {
        if climb.next < climb.end {
            TaskState::Mark(node, climb)
        } else {
            TaskState::Idle
        }
    }

    /// The worker is inside an operation on a handle to `n`.
    pub open spec fn engages(self, n: usize) -> bool {
        match self {
            TaskState::Read(walk) => walk.origin == n,
            TaskState::Mark(node, climb) => node == n,
            _ => false,
        }
    }
}

impl<T> TreeState<T> {
    /// One touch: the tree after it, and what was found. `g` is the fold, and
    /// `fresh` the clone of the identity that is put in place of a delta.
    pub open spec fn touched(
        self,
        g: spec_fn(T, T) -> T,
        fresh: T,
        deed: Deed<usize, T>,
    ) -> (Self, Found<usize, T>) {
        match deed {
            Deed::Lower(n) => (
                self.with(n, NodeState { subtree_dirty: false, ..self.node(n) }),
                Found::Flag(self.node(n).subtree_dirty),
            ),
            Deed::List(n) => (self, Found::Sons(self.node(n).sons)),
            Deed::LoadDirty(n) => (self, Found::Flag(self.node(n).dirty)),
            Deed::Take(n) => (
                self.with(n, NodeState { data: fresh, dirty: false, ..self.node(n) }),
                Found::Delta(self.node(n).data),
            ),
            Deed::Fold(n, delta) => (
                self.with(n, NodeState { data: g(self.node(n).data, delta), ..self.node(n) }),
                Found::Ack,
            ),
            Deed::LoadDead(n) => (self, Found::Flag(self.node(n).dead)),
            Deed::LoadHandles(n) => (self, Found::Count(self.node(n).handles)),
            Deed::IsEmpty(n) => (self, Found::Flag(self.node(n).sons.len() == 0)),
            Deed::Unlink(n, marked) => (self.reaped(n, marked), Found::Ack),
            Deed::Finish(changed) => (self, Found::Ack),
        }
    }

    /// The tree after the dirty bit of `n` was raised.
    pub open spec fn dirtied(self, n: usize) -> Self {
        self.with(n, NodeState { dirty: true, ..self.node(n) })
    }

    /// The step of one worker: the tree after it, and what the worker has in
    /// hand then.
    pub open spec fn worked(
        self,
        g: spec_fn(T, T) -> T,
        fresh: T,
        task: TaskState<T>,
    ) -> (Self, TaskState<T>) {
        match task {
            TaskState::Read(walk) => match walk.stage {
                // the data is read, and what came from below is owed from now on
                Stage::Done(changed) => if changed && self.node(walk.origin).ancestors.len() > 0 {
                    (
                        self.dirtied(walk.origin),
                        TaskState::marking(
                            walk.origin,
                            Climb {
                                next: 0,
                                end: if self.node(walk.origin).dirty {
                                    0
                                } else {
                                    self.node(walk.origin).ancestors.len() as usize
                                },
                            },
                        ),
                    )
                } else {
                    (self, TaskState::Idle)
                },
                _ => {
                    let (new, found) = self.touched(g, fresh, walk.deed());
                    (new, TaskState::Read(walk.next(found)))
                },
            },
            TaskState::Mark(node, climb) => {
                let a = self.node(node).ancestors[climb.next as int];
                (
                    self.with(a, NodeState { subtree_dirty: true, ..self.node(a) }),
                    TaskState::marking(
                        node,
                        Climb {
                            next: if self.node(a).subtree_dirty {
                                climb.end
                            } else {
                                (climb.next + 1) as usize
                            },
                            end: climb.end,
                        },
                    ),
                )
            },
            TaskState::Retire(n) => (
                self.with(n, NodeState { dead: true, ..self.node(n) }),
                TaskState::Idle,
            ),
            TaskState::Idle => (self, TaskState::Idle),
        }
    }
}

impl<T> CrewState<T> {
    /// `i` names a worker.
    pub open spec fn employs(self, i: int) -> bool {
        0 <= i < self.tasks.len()
    }

    /// The crew with another tree, and another task in the hands of worker `i`.
    pub open spec fn assigned(self, tree: TreeState<T>, i: int, task: TaskState<T>) -> Self {
        CrewState { tree, tasks: self.tasks.update(i, task) }
    }

    /// Worker `i` takes one step.
    pub open spec fn stepped(self, g: spec_fn(T, T) -> T, fresh: T, i: int) -> Self {
        let (tree, task) = self.tree.worked(g, fresh, self.tasks[i]);
        self.assigned(tree, i, task)
    }

    /// Worker `i` writes `data` to `n`, and is to flag the ancestors next.
    pub open spec fn began_write(self, i: int, n: usize, data: T) -> Self {
        let was = self.tree.node(n);
        self.assigned(
            self.tree.with(n, NodeState { data, dirty: true, ..was }),
            i,
            TaskState::marking(
                n,
                Climb {
                    next: 0,
                    end: if was.dirty {
                        0
                    } else {
                        was.ancestors.len() as usize
                    },
                },
            ),
        )
    }

    /// Worker `i` sets out to read `n`.
    pub open spec fn began_read(self, i: int, n: usize) -> Self {
        self.assigned(self.tree, i, TaskState::Read(WalkState::begun(n)))
    }

    /// Worker `i` gives up a handle to `n`, and is to declare `n` dead next if it
    /// was the last one.
    pub open spec fn began_release(self, i: int, n: usize) -> Self {
        let left = (self.tree.node(n).handles - 1) as usize;
        self.assigned(
            self.tree.with(n, NodeState { handles: left, ..self.tree.node(n) }),
            i,
            if left == 0 {
                TaskState::Retire(n)
            } else {
                TaskState::Idle
            },
        )
    }

    /// A worker registers a new son of `n` that holds `data`.
    pub open spec fn registered(self, n: usize, data: T) -> Self {
        CrewState { tree: self.tree.grown(n, data), tasks: self.tasks }
    }

    /// A worker clones a handle to `n`.
    pub open spec fn shared(self, n: usize) -> Self {
        CrewState { tree: self.tree.shared(n), tasks: self.tasks }
    }

    /// A handle to `n` may be given up: the operations under way on `n` keep one.
    pub open spec fn may_release(self, n: usize) -> bool {
        &&& self.tree.held(n)
        &&& self.tree.node(n).handles == 1 ==> forall|i: int|
            self.employs(i) ==> !(#[trigger] self.tasks[i]).engages(n)
    }

    /// Nobody has anything in hand.
    pub open spec fn quiet(self) -> bool {
        forall|i: int| self.employs(i) ==> #[trigger] self.tasks[i] == TaskState::<T>::Idle
    }
}

// ---------------------------------------------------------------------------
// Who will see to what
// ---------------------------------------------------------------------------

impl<T> WalkState<usize, T> {
    /// The first son of frame `k` whose flag the walk has not lowered yet.
    pub open spec fn first_unentered(self, k: int) -> int {
        if k == self.frames.len() - 1 && self.stage is Enter {
            self.frames[k].at as int
        } else {
            self.frames[k].at + 1
        }
    }

    /// The first son of frame `k` whose dirty bit the walk has not settled yet.
    pub open spec fn first_unchecked(self, k: int) -> int {
        if k == self.frames.len() - 1 && (self.stage is Fold || self.stage is Dead
            || self.stage is Handles || self.stage is Clean || self.stage is Empty) {
            self.frames[k].at + 1
        } else {
            self.frames[k].at as int
        }
    }

    /// Frame `k` is about to list its sons.
    pub open spec fn listing(self, k: int) -> bool {
        k == self.frames.len() - 1 && self.stage is List
    }

    /// `c` is a son of frame `k` at or after the place `from`.
    pub open spec fn ahead(self, k: int, from: int, c: usize) -> bool {
        exists|j: int| from <= j < self.frames[k].sons.len() && #[trigger] self.frames[k].sons[j] == c
    }

    /// Inside frame `k`, the walk will come to the flag of `c`, a son of `p`.
    pub open spec fn frame_will_enter(self, k: int, p: usize, c: usize) -> bool {
        &&& 0 <= k < self.frames.len()
        &&& self.place(k) == p
        &&& self.listing(k) || self.ahead(k, self.first_unentered(k), c)
    }

    /// The walk will come to the flag of `c`, a son of `p`.
    pub open spec fn will_enter(self, p: usize, c: usize) -> bool {
        exists|k: int| #[trigger] self.frame_will_enter(k, p, c)
    }

    /// Inside frame `k`, the walk will come to the dirty bit of `c`, a son of `p`.
    pub open spec fn frame_will_check(self, k: int, p: usize, c: usize) -> bool {
        &&& 0 <= k < self.frames.len()
        &&& self.place(k) == p
        &&& self.listing(k) || self.ahead(k, self.first_unchecked(k), c)
    }

    /// The walk will come to the dirty bit of `c`, a son of `p`.
    pub open spec fn will_check(self, p: usize, c: usize) -> bool {
        exists|k: int| #[trigger] self.frame_will_check(k, p, c)
    }

    /// Frame `k` is inside of `c`, and has folded something into it.
    pub open spec fn frame_changed(self, k: int, c: usize) -> bool {
        0 <= k < self.frames.len() && self.place(k) == c && self.frames[k].changed
    }

    /// The walk has folded something into `c`, or found it dirty, and will carry
    /// it on: take it on to the father of `c`, or leave `c` dirty.
    pub open spec fn will_deliver(self, c: usize) -> bool {
        ||| self.stage == Stage::<T>::Done(true) && self.origin == c
        ||| self.frames.len() > 0 && (self.stage == Stage::<T>::Dirty(true) || self.stage is Take)
            && self.top().current() == c
        ||| exists|k: int| #[trigger] self.frame_changed(k, c)
    }
}

impl<T> TreeState<T> {
    /// The worker will raise the flag of the father of `c`, or come to the flag
    /// of `c`.
    pub open spec fn attends_flag(self, task: TaskState<T>, c: usize) -> bool {
        match task {
            TaskState::Read(walk) => walk.will_enter(self.father(c), c),
            TaskState::Mark(node, climb) => self.node(node).ancestors[climb.next as int]
                == self.father(c),
            _ => false,
        }
    }

    /// The worker will raise the flag of the father of `c`, or come to the dirty
    /// bit of `c`.
    pub open spec fn attends_dirt(self, task: TaskState<T>, c: usize) -> bool {
        match task {
            TaskState::Read(walk) => walk.will_check(self.father(c), c),
            TaskState::Mark(node, climb) => self.node(node).ancestors[climb.next as int]
                == self.father(c),
            _ => false,
        }
    }

    /// The worker will carry on what it folded into `c`.
    pub open spec fn attends_data(self, task: TaskState<T>, c: usize) -> bool {
        match task {
            TaskState::Read(walk) => walk.will_deliver(c),
            _ => false,
        }
    }

    /// What a walk knows of the nodes it has come by.
    pub open spec fn vouches(self, walk: WalkState<usize, T>) -> bool {
        &&& walk.fits()
        &&& forall|k: int|
            0 <= k < walk.frames.len() ==> (#[trigger] walk.frames[k]).sons.len() <= usize::MAX
        &&& forall|k: int, j: int|
            0 <= k < walk.frames.len() && 0 <= j < walk.frames[k].sons.len() ==> {
                let s = #[trigger] walk.frames[k].sons[j];
                self.has(s) && 0 < s && self.father(s) == walk.place(k)
            }
        &&& forall|k: int, i: int|
            0 <= k < walk.frames.len() && 0 <= i < walk.frames[k].spent.len() ==> self.spent(
                walk.frames[k].sons[#[trigger] walk.frames[k].spent[i] as int],
            )
        &&& walk.stage is Handles ==> self.node(walk.top().current()).dead
        &&& walk.stage is Clean ==> self.node(walk.top().current()).dead && self.node(
            walk.top().current(),
        ).handles == 0
        &&& walk.stage is Empty ==> self.node(walk.top().current()).dead && self.node(
            walk.top().current(),
        ).handles == 0 && !self.node(walk.top().current()).dirty
    }

    /// The task makes sense on this tree.
    pub open spec fn admits(self, task: TaskState<T>) -> bool {
        match task {
            TaskState::Read(walk) => self.held(walk.origin) && self.vouches(walk),
            TaskState::Mark(node, climb) => self.held(node) && climb.next < climb.end == self.node(
                node,
            ).ancestors.len(),
            TaskState::Retire(n) => self.has(n) && self.node(n).handles == 0,
            TaskState::Idle => true,
        }
    }
}

impl<T: Clone> CrewState<T> {
    /// A raised flag is announced above, or somebody will see to it.
    pub open spec fn flag_seen_to(self, c: usize) -> bool {
        ||| !self.tree.node(c).subtree_dirty
        ||| self.tree.node(self.tree.father(c)).subtree_dirty
        ||| exists|i: int| self.employs(i) && #[trigger] self.tree.attends_flag(self.tasks[i], c)
    }

    /// A raised dirty bit is announced above, or somebody will see to it.
    pub open spec fn dirt_seen_to(self, c: usize) -> bool {
        ||| !self.tree.node(c).dirty
        ||| self.tree.node(self.tree.father(c)).subtree_dirty
        ||| exists|i: int| self.employs(i) && #[trigger] self.tree.attends_dirt(self.tasks[i], c)
    }

    /// Data that is not the identity is dirty, or somebody will carry it on.
    pub open spec fn data_seen_to(self, c: usize) -> bool {
        ||| self.tree.node(c).dirty
        ||| cloned(self.tree.identity, self.tree.node(c).data)
        ||| exists|i: int| self.employs(i) && #[trigger] self.tree.attends_data(self.tasks[i], c)
    }

    /// A node without handles was declared dead, or somebody will do so.
    pub open spec fn tomb_seen_to(self, n: usize) -> bool {
        ||| self.tree.node(n).handles > 0
        ||| self.tree.node(n).dead
        ||| exists|i: int| self.employs(i) && #[trigger] self.tasks[i] == TaskState::<T>::Retire(n)
    }

    /// What holds of a crew at every moment, whatever order the steps come in.
    pub open spec fn sound(self) -> bool {
        &&& self.tree.shaped()
        &&& forall|n: usize| self.tree.has(n) ==> #[trigger] self.tomb_seen_to(n)
        &&& forall|i: int| self.employs(i) ==> #[trigger] self.tree.admits(self.tasks[i])
        &&& forall|c: usize|
            0 < c && self.tree.has(c) && self.tree.linked(c) ==> #[trigger] self.flag_seen_to(c)
        &&& forall|c: usize|
            0 < c && self.tree.has(c) && self.tree.linked(c) ==> #[trigger] self.dirt_seen_to(c)
        &&& forall|c: usize| 0 < c && self.tree.has(c) ==> #[trigger] self.data_seen_to(c)
    }
}

// ---------------------------------------------------------------------------
// A quiet crew leaves a sound tree
// ---------------------------------------------------------------------------

impl<T: Clone> CrewState<T> {
    /// When all operations are over, the tree is sound: every pending write is
    /// announced all the way up, and nothing that is not dirty holds anything.
    /// So whatever the order of the steps was, no write is lost.
    pub proof fn law_quiet_tree_is_sound(self)
        requires
            self.sound(),
            self.quiet(),
        ensures
            self.tree.sound(),
    {
        let tree = self.tree;
        assert forall|n: usize| tree.has(n) && (#[trigger] tree.node(n)).handles == 0 implies tree.node(
            n,
        ).dead by {
            assert(self.tomb_seen_to(n));
            assert forall|i: int| self.employs(i) implies #[trigger] self.tasks[i]
                != TaskState::<T>::Retire(n) by {
                assert(self.tasks[i] == TaskState::<T>::Idle);
            }
        }
        assert forall|x: usize|
            tree.has(x) && tree.under(x, 0) && tree.linked(x) implies #[trigger] tree.announced(
            x,
        ) by {
            tree.lemma_under_step(x, 0);
            assert(self.flag_seen_to(x));
            assert(self.dirt_seen_to(x));
            assert forall|i: int| self.employs(i) implies !#[trigger] tree.attends_flag(
                self.tasks[i],
                x,
            ) && !tree.attends_dirt(self.tasks[i], x) by {
                assert(self.tasks[i] == TaskState::<T>::Idle);
            }
        }
        assert forall|n: usize| 0 < n && tree.has(n) && !(#[trigger] tree.node(n)).dirty implies cloned(
            tree.identity,
            tree.node(n).data,
        ) by {
            assert(self.data_seen_to(n));
            assert forall|i: int| self.employs(i) implies !#[trigger] tree.attends_data(
                self.tasks[i],
                n,
            ) by {
                assert(self.tasks[i] == TaskState::<T>::Idle);
            }
        }
    }

    /// A sound tree and a crew with nothing in hand make a sound crew.
    pub proof fn lemma_quiet_crew(self)
        requires
            self.tree.sound(),
            self.quiet(),
        ensures
            self.sound(),
    {
        let tree = self.tree;
        assert forall|c: usize| 0 < c && tree.has(c) && tree.linked(c) implies #[trigger] self.flag_seen_to(
            c,
        ) && self.dirt_seen_to(c) by {
            tree.lemma_under_root(c);
            assert(tree.announced(c));
        }
        assert forall|c: usize| 0 < c && tree.has(c) && tree.linked(c) implies #[trigger] self.dirt_seen_to(
            c,
        ) by {
            assert(self.flag_seen_to(c));
            tree.lemma_under_root(c);
            assert(tree.announced(c));
        }
        assert forall|i: int| self.employs(i) implies #[trigger] tree.admits(self.tasks[i]) by {
            assert(self.tasks[i] == TaskState::<T>::Idle);
        }
    }
}

} // verus!
