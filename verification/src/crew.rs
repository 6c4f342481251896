//! Threads at work on one tree, their steps taken in any order.
//!
//! A crew is a tree and a number of workers, each with at most one operation in
//! hand. `step` lets one worker touch the tree once. Whatever order the steps
//! are taken in, nothing that was written is lost or counted twice, and when
//! all operations are over the tree can be read exactly.
use vstd::prelude::*;

use crate::climb::owes;
use crate::climb::retires;
use crate::climb::Climb;
use crate::handle::Mergex;
use crate::interleave::CrewState;
use crate::interleave::TaskState;
use crate::monoid::may_fold;
use crate::state::TreeState;
use crate::sweep::lemma_filter_is_part;
use crate::tree::Tree;
use crate::walk::picked;
use crate::walk::Action;
use crate::walk::Deed;
use crate::walk::Found;
use crate::walk::Reply;
use crate::walk::Stage;
use crate::walk::Walk;
use crate::walk::WalkState;

verus! {

/// What one worker has in hand.
#[derive(Clone, Debug)]
enum Task<T> {
    Read(Walk<usize, T>),
    Mark(usize, Climb),
    Retire(usize),
    Idle,
}

/// A tree and the workers on it.
///
/// A node that is unlinked while others are on their way through the tree is freed
/// once nobody can refer to it any more.
#[derive(Clone, Debug)]
pub struct Crew<T, M> {
    tree: Tree<T, M>,
    tasks: Vec<Task<T>>,
    // unlinked, and not freed yet
    loose: Vec<usize>,
}

impl<T> View for Task<T> {
    type V = TaskState<T>;

    closed spec fn view(&self) -> TaskState<T> {
        match *self {
            Task::Read(walk) => TaskState::Read(walk@),
            Task::Mark(node, climb) => TaskState::Mark(node, climb),
            Task::Retire(node) => TaskState::Retire(node),
            Task::Idle => TaskState::Idle,
        }
    }
}

impl<T, M> View for Crew<T, M> {
    type V = CrewState<T>;

    closed spec fn view(&self) -> CrewState<T> {
        CrewState {
            tree: self.tree@,
            tasks: Seq::new(self.tasks@.len(), |i: int| self.tasks@[i]@),
        }
    }
}

impl<T> TreeState<T> {
    /// The node whose data a touch may change.
    pub open spec fn site(deed: Deed<usize, T>) -> usize {
        match deed {
            Deed::Take(n) => n,
            Deed::Fold(n, delta) => n,
            _ => 0,
        }
    }

    /// The names in a touch are names of nodes.
    pub open spec fn reaches(self, deed: Deed<usize, T>) -> bool {
        match deed {
            Deed::Lower(n) => self.has(n),
            Deed::List(n) => self.has(n),
            Deed::LoadDirty(n) => self.has(n),
            Deed::Take(n) => self.has(n),
            Deed::Fold(n, delta) => self.has(n),
            Deed::LoadDead(n) => self.has(n),
            Deed::LoadHandles(n) => self.has(n),
            Deed::IsEmpty(n) => self.has(n),
            Deed::Unlink(n, marked) => self.has(n),
            Deed::Finish(changed) => true,
        }
    }

    /// The sons that a touch unlinks.
    pub open spec fn unlinked_by(self, deed: Deed<usize, T>) -> Seq<usize> {
        match deed {
            Deed::Unlink(n, marked) => self.node(n).sons.filter(
                |s: usize|
                    marked.contains(s) && self.node(s).handles == 0 && !self.node(s).dirty,
            ),
            _ => Seq::empty(),
        }
    }

    /// The node whose data the next step of a task may change.
    pub open spec fn task_site(task: TaskState<T>) -> usize {
        match task {
            TaskState::Read(walk) => Self::site(walk.deed()),
            _ => 0,
        }
    }
}

impl<T, M> Tree<T, M> {
    /// With the same nodes in store, the same tasks are served.
    proof fn lemma_serves_on(self, new: Self, task: TaskState<T>)
        requires
            self.serves_task(task),
            new.like(self),
        ensures
            new.serves_task(task),
    {
        if let TaskState::Read(walk) = task {
            assert forall|k: int, j: int|
                0 <= k < walk.frames.len() && 0 <= j < walk.frames[k].sons.len() implies new.stores(
                #[trigger] walk.frames[k].sons[j],
            ) by {
                assert(self.stores(walk.frames[k].sons[j]));
            }
        }
    }

    /// After a touch, what the walk refers to is in the store.
    proof fn lemma_serves_next(
        self,
        new: Self,
        walk: WalkState<usize, T>,
        found: Found<usize, T>,
    )
        requires
            self.serves_task(TaskState::Read(walk)),
            new.like(self),
            walk.fits(),
            walk.stage is List ==> forall|j: int|
                0 <= j < found->Sons_0.len() ==> self.stores(#[trigger] found->Sons_0[j]),
        ensures
            new.serves_task(TaskState::Read(walk.next(found))),
    {
        let next = walk.next(found);
        let last = walk.frames.len() - 1;
        assert forall|k: int, j: int|
            0 <= k < next.frames.len() && 0 <= j < next.frames[k].sons.len() implies new.stores(
            #[trigger] next.frames[k].sons[j],
        ) by {
            if k < walk.frames.len() && !(walk.stage is List && k == last) {
                assert(next.frames[k].sons == walk.frames[k].sons);
                assert(self.stores(walk.frames[k].sons[j]));
            } else if walk.stage is List {
                assert(next.frames[k].sons == found->Sons_0);
                assert(self.stores(found->Sons_0[j]));
            }
        }
    }

    /// The nodes that a touch goes to are in the store.
    spec fn serves(self, deed: Deed<usize, T>) -> bool {
        match deed {
            Deed::Lower(n) => self.stores(n),
            Deed::List(n) => self.stores(n),
            Deed::LoadDirty(n) => self.stores(n),
            Deed::Take(n) => self.stores(n),
            Deed::Fold(n, delta) => self.stores(n),
            Deed::LoadDead(n) => self.stores(n),
            Deed::LoadHandles(n) => self.stores(n),
            Deed::IsEmpty(n) => self.stores(n),
            Deed::Unlink(n, marked) => self.stores(n) && forall|i: int|
                0 <= i < self@.node(n).sons.len() ==> self.stores(
                    #[trigger] self@.node(n).sons[i],
                ),
            Deed::Finish(changed) => true,
        }
    }

    /// What a task still refers to is in the store.
    spec fn serves_task(self, task: TaskState<T>) -> bool {
        match task {
            TaskState::Read(walk) => forall|k: int, j: int|
                0 <= k < walk.frames.len() && 0 <= j < walk.frames[k].sons.len() ==> self.stores(
                    #[trigger] walk.frames[k].sons[j],
                ),
            TaskState::Retire(n) => self.stores(n),
            _ => true,
        }
    }
}

impl<T: Clone, M: Fn(&mut T, &T)> Tree<T, M> {
    /// Performs one touch. What it unlinks is put on the list of the loose.
    fn touch<'a>(&mut self, action: Action<'a, usize, T>, loose: &mut Vec<usize>) -> (reply: Reply<
        usize,
        T,
    >)
        requires
            old(self)@.shaped(),
            old(self)@.reaches(action@),
            old(self).serves(action@),
            action is Unlink ==> forall|i: int|
                0 <= i < action->Unlink_2@.len() ==> #[trigger] action->Unlink_2@[i]
                    < action->Unlink_1@.len(),
            action matches Action::Fold(n, delta) ==> may_fold(
                old(self).merge(),
                old(self)@.node(*n).data,
                *delta,
            ),
        ensures
            final(self).like(*old(self)),
            final(loose)@ == old(loose)@ + old(self)@.unlinked_by(action@),
            ({
                let v = final(self)@.node(TreeState::<T>::site(action@)).data;
                (final(self)@, reply@) == old(self)@.touched(|a: T, b: T| v, v, action@)
            }),
            action is Take ==> cloned(
                old(self)@.identity,
                final(self)@.node(TreeState::<T>::site(action@)).data,
            ),
            forall|g: spec_fn(T, T) -> T|
                (forall|father: &mut T, son: &T| #[trigger]
                    call_ensures(old(self).merge(), (father, son), ()) ==> *final(father) == g(
                        *father,
                        *son,
                    )) ==> (final(self)@, reply@) == #[trigger] old(self)@.touched(
                    g,
                    final(self)@.node(TreeState::<T>::site(action@)).data,
                    action@,
                ),
    {
        let ghost before = self@;
        assert(old(loose)@ + Seq::<usize>::empty() =~= old(loose)@);
        match action {
            Action::Lower(n) => Reply::Flag(self.swap_subtree_dirty(*n, false)),
            Action::List(n) => Reply::Sons(self.snapshot_sons(*n)),
            Action::LoadDirty(n) => Reply::Flag(self.load_dirty(*n)),
            Action::Take(n) => Reply::Delta(self.take(*n)),
            Action::Fold(n, delta) => {
                self.fold(*n, delta);
                Reply::Ack
            },
            Action::LoadDead(n) => Reply::Flag(self.load_dead(*n)),
            Action::LoadHandles(n) => Reply::Count(self.load_handles(*n)),
            Action::IsEmpty(n) => Reply::Flag(self.has_no_sons(*n)),
            Action::Unlink(n, sons, places) => {
                let mut marked: Vec<usize> = Vec::new();
                let mut i: usize = 0;
                while i < places.len()
                    invariant
                        0 <= i <= places@.len(),
                        forall|j: int| 0 <= j < places@.len() ==> #[trigger] places@[j] < sons@.len(),
                        marked@ == picked(sons@, places@.take(i as int)),
                    decreases places@.len() - i,
                {
                    let at: usize = places[i];
                    marked.push(sons[at]);
                    i = i + 1;
                    assert(marked@ =~= picked(sons@, places@.take(i as int)));
                }
                assert(places@.take(i as int) =~= places@);
                assert(before.lists_its_own(*n));
                let mut gone = self.reap(*n, marked);
                loose.append(&mut gone);
                Reply::Ack
            },
            Action::Finish(_) => Reply::Ack,
        }
    }
}

impl<T, M> Crew<T, M> {
    /// The fold: father first, then son.
    pub closed spec fn merge(self) -> M {
        self.tree.merge()
    }

    proof fn lemma_view(&self)
        ensures
            self@.tree == self.tree@,
            self@.tasks.len() == self.tasks@.len(),
            forall|i: int| 0 <= i < self.tasks@.len() ==> #[trigger] self@.tasks[i] == self.tasks@[i]@,
            self.merge() == self.tree.merge(),
    {
    }

    /// Every linked node is in the store, what else is there is on the list of the
    /// loose, and what a worker still refers to is there.
    pub closed spec fn keeps_store(self) -> bool {
        &&& forall|n: usize|
            self.tree@.has(n) && #[trigger] self.tree@.linked(n) ==> self.tree.stores(n)
        &&& forall|n: usize| #[trigger]
            self.tree.stores(n) ==> self.tree@.linked(n) || self.loose@.contains(n)
        &&& forall|p: int|
            0 <= p < self.loose@.len() ==> self.tree.stores(#[trigger] self.loose@[p])
                && !self.tree@.linked(self.loose@[p])
        &&& self.loose@.no_duplicates()
        &&& forall|i: int|
            0 <= i < self.tasks@.len() ==> self.tree.serves_task(#[trigger] self.tasks@[i]@)
    }

    /// A node that somebody holds is in the store, and so are its ancestors.
    proof fn lemma_held_is_stored(self, n: usize)
        requires
            self.keeps_store(),
            self.tree@.shaped(),
            self.tree@.held(n),
        ensures
            self.tree.stores(n),
            forall|i: int|
                0 <= i < self.tree@.node(n).ancestors.len() ==> self.tree.stores(
                    #[trigger] self.tree@.node(n).ancestors[i],
                ),
    {
        let tree = self.tree@;
        tree.lemma_held_is_linked(n);
        assert forall|i: int| 0 <= i < tree.node(n).ancestors.len() implies self.tree.stores(
            #[trigger] tree.node(n).ancestors[i],
        ) by {
            tree.lemma_ancestor(n, i);
            tree.lemma_ancestors_linked(n, tree.node(n).ancestors[i]);
        }
    }

    /// The store is kept where no list of sons changes.
    proof fn lemma_store_kept(self, before: Self, i: int)
        requires
            before.keeps_store(),
            before.tree@.shaped(),
            self.tree.like(before.tree),
            before.tree@.same_lists(self.tree@),
            self.loose@ == before.loose@,
            self.tasks@.len() == before.tasks@.len(),
            0 <= i < self.tasks@.len(),
            forall|j: int|
                0 <= j < self.tasks@.len() && j != i ==> #[trigger] self.tasks@[j]
                    == before.tasks@[j],
            self.tree.serves_task(self.tasks@[i]@),
        ensures
            self.keeps_store(),
    {
        assert forall|n: usize|
            self.tree@.has(n) && #[trigger] self.tree@.linked(n) implies self.tree.stores(n) by {
            before.tree@.lemma_same_lists(self.tree@, n);
            assert(before.tree.stores(n));
        }
        assert forall|n: usize| #[trigger] self.tree.stores(n) implies self.tree@.linked(n)
            || self.loose@.contains(n) by {
            assert(before.tree.stores(n));
            before.tree.lemma_stored(n);
            before.tree@.lemma_same_lists(self.tree@, n);
        }
        assert forall|p: int| 0 <= p < self.loose@.len() implies self.tree.stores(
            #[trigger] self.loose@[p],
        ) && !self.tree@.linked(self.loose@[p]) by {
            let n = before.loose@[p];
            assert(before.tree.stores(n));
            assert(self.tree.stores(n));
            before.tree.lemma_stored(n);
            before.tree@.lemma_same_lists(self.tree@, n);
        }
        assert forall|j: int| 0 <= j < self.tasks@.len() implies self.tree.serves_task(
            #[trigger] self.tasks@[j]@,
        ) by {
            if j != i {
                assert(self.tasks@[j] == before.tasks@[j]);
                before.tree.lemma_serves_on(self.tree, before.tasks@[j]@);
            }
        }
    }

    /// A new son is put into the store.
    proof fn lemma_store_grown(self, before: Self, n: usize, son: usize)
        requires
            before.keeps_store(),
            before.tree@.shaped(),
            before.tree@.held(n),
            before.tree@.nodes.len() < usize::MAX,
            son == before.tree@.nodes.len(),
            self.tree@ == before.tree@.grown(n, self.tree@.node(son).data),
            forall|x: usize| #[trigger]
                self.tree.stores(x) == (before.tree.stores(x) || x == son),
            self.loose == before.loose,
            self.tasks == before.tasks,
        ensures
            self.keeps_store(),
    {
        let old = before.tree@;
        let new = self.tree@;
        old.lemma_grown_shaped(n, new.node(son).data);
        assert(new.linked(son)) by {
            let sons = new.node(n).sons;
            assert(sons[sons.len() - 1] == son);
        }
        assert forall|x: usize| new.has(x) && #[trigger] new.linked(x) implies self.tree.stores(x) by {
            if x != son {
                assert(old.linked(x) == new.linked(x));
                assert(before.tree.stores(x));
            }
        }
        assert forall|x: usize| #[trigger] self.tree.stores(x) implies new.linked(x)
            || self.loose@.contains(x) by {
            if x != son {
                assert(before.tree.stores(x));
                before.tree.lemma_stored(x);
                assert(old.linked(x) == new.linked(x));
            }
        }
        assert forall|p: int| 0 <= p < self.loose@.len() implies self.tree.stores(
            #[trigger] self.loose@[p],
        ) && !new.linked(self.loose@[p]) by {
            let x = before.loose@[p];
            assert(before.tree.stores(x));
            before.tree.lemma_stored(x);
            assert(old.linked(x) == new.linked(x));
        }
        assert forall|i: int| 0 <= i < self.tasks@.len() implies self.tree.serves_task(
            #[trigger] self.tasks@[i]@,
        ) by {
            assert(before.tree.serves_task(before.tasks@[i]@));
            if let TaskState::Read(walk) = self.tasks@[i]@ {
                assert forall|k: int, j: int|
                    0 <= k < walk.frames.len() && 0 <= j < walk.frames[k].sons.len()
                    implies self.tree.stores(#[trigger] walk.frames[k].sons[j]) by {
                    assert(before.tree.stores(walk.frames[k].sons[j]));
                }
            }
        }
    }

    /// A touch that unlinks keeps the store: what it unlinks is loose from then on.
    proof fn lemma_store_unlinked(self, before: Self, i: int, n: usize, marked: Seq<usize>)
        requires
            before.keeps_store(),
            before.tree@.shaped(),
            before.tree@.has(n),
            self.tree.like(before.tree),
            self.tree@ == before.tree@.reaped(n, marked),
            self.loose@ == before.loose@ + before.tree@.unlinked_by(Deed::Unlink(n, marked)),
            self.tasks@.len() == before.tasks@.len(),
            0 <= i < self.tasks@.len(),
            forall|j: int|
                0 <= j < self.tasks@.len() && j != i ==> #[trigger] self.tasks@[j]
                    == before.tasks@[j],
            self.tree.serves_task(self.tasks@[i]@),
        ensures
            self.keeps_store(),
    {
        let old = before.tree@;
        let new = self.tree@;
        let gone = old.unlinked_by(Deed::Unlink(n, marked));
        let sons = old.node(n).sons;
        assert(old.lists_its_own(n));
        lemma_filter_is_part(
            sons,
            |s: usize| marked.contains(s) && old.node(s).handles == 0 && !old.node(s).dirty,
        );
        assert forall|p: int| 0 <= p < gone.len() implies old.has(#[trigger] gone[p])
            && old.linked(gone[p]) by {
            assert(sons.contains(gone[p]));
            let j = sons.index_of(gone[p]);
            old.lemma_son(n, j);
        }
        assert forall|x: usize| new.has(x) && #[trigger] new.linked(x) implies self.tree.stores(x) by {
            old.lemma_reaped_linked(n, marked, x);
            assert(before.tree.stores(x));
        }
        assert forall|x: usize| #[trigger] self.tree.stores(x) implies new.linked(x)
            || self.loose@.contains(x) by {
            assert(before.tree.stores(x));
            before.tree.lemma_stored(x);
            old.lemma_reaped_linked(n, marked, x);
            if before.loose@.contains(x) {
                let p = before.loose@.index_of(x);
                assert(self.loose@[p] == x);
            } else if gone.contains(x) {
                let p = gone.index_of(x);
                assert(self.loose@[before.loose@.len() + p] == x);
            }
        }
        assert forall|p: int| 0 <= p < self.loose@.len() implies self.tree.stores(
            #[trigger] self.loose@[p],
        ) && !new.linked(self.loose@[p]) by {
            let x = self.loose@[p];
            if p < before.loose@.len() {
                assert(before.loose@[p] == x);
                assert(before.tree.stores(x));
                before.tree.lemma_stored(x);
            } else {
                let q = p - before.loose@.len();
                assert(gone[q] == x);
                assert(before.tree.stores(x));
            }
            assert(self.tree.stores(x));
            old.lemma_reaped_linked(n, marked, x);
        }
        assert forall|p: int, q: int| 0 <= p < q < self.loose@.len() implies self.loose@[p]
            != self.loose@[q] by {
            let len = before.loose@.len() as int;
            if p < len && len <= q {
                assert(before.loose@[p] == self.loose@[p]);
                assert(!old.linked(before.loose@[p]));
                assert(old.linked(gone[q - len]));
            }
        }
        assert forall|j: int| 0 <= j < self.tasks@.len() implies self.tree.serves_task(
            #[trigger] self.tasks@[j]@,
        ) by {
            if j != i {
                assert(self.tasks@[j] == before.tasks@[j]);
                before.tree.lemma_serves_on(self.tree, before.tasks@[j]@);
            }
        }
    }

    /// What a walk touches next is in the store.
    proof fn lemma_serves_walk(self, walk: WalkState<usize, T>)
        requires
            self.keeps_store(),
            self.tree@.shaped(),
            self.tree@.held(walk.origin),
            self.tree@.vouches(walk),
            self.tree.serves_task(TaskState::Read(walk)),
        ensures
            self.tree.serves(walk.deed()),
            walk.stage is List ==> forall|i: int|
                0 <= i < self.tree@.node(walk.place(walk.frames.len() - 1)).sons.len()
                    ==> self.tree.stores(
                    #[trigger] self.tree@.node(walk.place(walk.frames.len() - 1)).sons[i],
                ),
    {
        let tree = self.tree@;
        let len = walk.frames.len();
        self.lemma_held_is_stored(walk.origin);
        if len > 0 {
            let last = walk.frames[len - 1];
            if last.busy() {
                assert(self.tree.stores(walk.frames[len - 1].sons[last.at as int]));
            }
            if len > 1 {
                let outer = walk.frames[len - 2];
                assert(outer.busy());
                assert(self.tree.stores(walk.frames[len - 2].sons[outer.at as int]));
            }
        }
        if walk.stage is Unlink || walk.stage is List {
            let p = walk.place(len - 1);
            tree.lemma_place(walk, len - 1);
            assert forall|i: int| 0 <= i < tree.node(p).sons.len() implies self.tree.stores(
                #[trigger] tree.node(p).sons[i],
            ) by {
                tree.lemma_son(p, i);
                assert(tree.linked(tree.node(p).sons[i]));
            }
        }
    }

    /// A step keeps the store.
    proof fn lemma_step_store(self, before: Self, i: int)
        requires
            before.keeps_store(),
            before.tree@.shaped(),
            0 <= i < before.tasks@.len(),
            before.tree@.admits(before.tasks@[i]@),
            self.tree.like(before.tree),
            self.tasks@ == before.tasks@.update(i, self.tasks@[i]),
            self.tree.serves_task(self.tasks@[i]@),
            exists|g: spec_fn(T, T) -> T, fresh: T|
                self.tree@ == (#[trigger] before.tree@.worked(g, fresh, before.tasks@[i]@)).0,
            self.loose@ == before.loose@ + match before.tasks@[i]@ {
                TaskState::Read(walk) => before.tree@.unlinked_by(walk.deed()),
                _ => Seq::empty(),
            },
        ensures
            self.keeps_store(),
    {
        let tree = before.tree@;
        let task = before.tasks@[i]@;
        let (g, fresh) = choose|g: spec_fn(T, T) -> T, fresh: T|
            self.tree@ == (#[trigger] tree.worked(g, fresh, task)).0;
        let unlinks = task is Read && task->Read_0.stage is Unlink;
        if unlinks {
            let walk = task->Read_0;
            let p = walk.place(walk.frames.len() - 1);
            let marked = picked(walk.top().sons, walk.top().spent);
            tree.lemma_place(walk, walk.frames.len() - 1);
            self.lemma_store_unlinked(before, i, p, marked);
        } else {
            assert(before.loose@ + Seq::<usize>::empty() =~= before.loose@);
            match task {
                TaskState::Read(walk) => {
                    tree.lemma_reaches(walk);
                },
                TaskState::Mark(n, climb) => {
                    tree.lemma_ancestor(n, climb.next as int);
                },
                _ => {},
            }
            self.lemma_store_kept(before, i);
        }
    }

    /// Frees everything that is loose.
    fn tidy(&mut self)
        requires
            old(self).keeps_store(),
            forall|i: int|
                0 <= i < old(self)@.tasks.len() ==> !(#[trigger] old(self)@.tasks[i] is Read)
                    && !(old(self)@.tasks[i] is Retire),
        ensures
            final(self)@ == old(self)@,
            final(self).merge() == old(self).merge(),
            final(self).keeps_store(),
            final(self).neat(),
    {
        proof {
            self.lemma_view();
            assert forall|i: int| 0 <= i < self.tasks@.len() implies !((#[trigger] self.tasks@[i])@
                is Read) && !(self.tasks@[i]@ is Retire) by {
                assert(self@.tasks[i] == self.tasks@[i]@);
            }
        }
        while self.loose.len() > 0
            invariant
                self.keeps_store(),
                self.tasks == old(self).tasks,
                self.tree@ == old(self).tree@,
                self.merge() == old(self).merge(),
                forall|i: int|
                    0 <= i < self.tasks@.len() ==> !((#[trigger] self.tasks@[i])@ is Read)
                        && !(self.tasks@[i]@ is Retire),
            decreases self.loose@.len(),
        {
            let ghost before = *self;
            let n: usize = self.loose.pop().unwrap();
            assert(before.loose@[before.loose@.len() - 1] == n);
            self.tree.free(n);
            proof {
                assert forall|x: usize| #[trigger] self.tree.stores(x) implies self.tree@.linked(x)
                    || self.loose@.contains(x) by {
                    assert(before.tree.stores(x));
                    if before.loose@.contains(x) {
                        let p = before.loose@.index_of(x);
                        assert(self.loose@[p] == x);
                    }
                }
                assert forall|p: int| 0 <= p < self.loose@.len() implies self.tree.stores(
                    #[trigger] self.loose@[p],
                ) && !self.tree@.linked(self.loose@[p]) by {
                    assert(before.loose@[p] == self.loose@[p]);
                    assert(before.tree.stores(before.loose@[p]));
                }
                assert forall|x: usize|
                    self.tree@.has(x) && #[trigger] self.tree@.linked(x) implies self.tree.stores(
                    x,
                ) by {
                    assert(before.tree.stores(x));
                    assert(!before.tree@.linked(before.loose@[before.loose@.len() - 1]));
                }
                assert forall|i: int| 0 <= i < self.tasks@.len() implies self.tree.serves_task(
                    #[trigger] self.tasks@[i]@,
                ) by {}
            }
        }
        assert(self@ =~= old(self)@);
    }

    /// The store holds exactly the linked nodes.
    pub closed spec fn neat(self) -> bool {
        self.tree.neat()
    }

    /// Whether nobody can refer to a node that is loose: nobody reads, and nobody is
    /// to declare a node dead.
    fn is_calm(&self) -> (calm: bool)
        ensures
            calm == forall|i: int|
                0 <= i < self@.tasks.len() ==> !(#[trigger] self@.tasks[i] is Read)
                    && !(self@.tasks[i] is Retire),
    {
        proof {
            self.lemma_view();
        }
        let mut i: usize = 0;
        while i < self.tasks.len()
            invariant
                0 <= i <= self.tasks@.len(),
                forall|j: int|
                    0 <= j < i ==> !((#[trigger] self.tasks@[j])@ is Read) && !(self.tasks@[j]@
                        is Retire),
            decreases self.tasks@.len() - i,
        {
            assert(self@.tasks[i as int] == self.tasks@[i as int]@);
            match &self.tasks[i] {
                Task::Read(_) => {
                    return false;
                },
                Task::Retire(_) => {
                    return false;
                },
                _ => {},
            }
            i = i + 1;
        }
        proof {
            assert forall|j: int| 0 <= j < self@.tasks.len() implies !(#[trigger] self@.tasks[j]
                is Read) && !(self@.tasks[j] is Retire) by {
                assert(self@.tasks[j] == self.tasks@[j]@);
            }
        }
        true
    }

    /// Puts a task into the hands of a worker.
    fn assign(&mut self, i: usize, task: Task<T>)
        requires
            i < old(self)@.tasks.len(),
        ensures
            final(self)@ == old(self)@.assigned(old(self)@.tree, i as int, task@),
            final(self).merge() == old(self).merge(),
            final(self).tree == old(self).tree,
            final(self).loose == old(self).loose,
            final(self).tasks@ == old(self).tasks@.update(i as int, task),
    {
        self.tasks[i] = task;
        assert(self@ =~= old(self)@.assigned(old(self)@.tree, i as int, task@));
    }

    /// The task of a write on its way up.
    fn marking(node: usize, climb: Climb) -> (task: Task<T>)
        ensures
            task@ == TaskState::<T>::marking(node, climb),
    {
        match climb.target() {
            Some(_) => Task::Mark(node, climb),
            None => Task::Idle,
        }
    }

    /// Whether a worker has nothing in hand.
    pub fn is_idle(&self, i: usize) -> (idle: bool)
        requires
            i < self@.tasks.len(),
        ensures
            idle == (self@.tasks[i as int] == TaskState::<T>::Idle),
    {
        match &self.tasks[i] {
            Task::Idle => true,
            _ => false,
        }
    }
}

impl<T: Clone, M: Fn(&mut T, &T)> Crew<T, M> {
    /// What holds of every crew between steps.
    pub open spec fn wf(self) -> bool {
        self@.sound() && self.keeps_store()
    }

    /// A number of workers with nothing in hand, and a tree to work on.
    pub fn new(tree: Tree<T, M>, workers: usize) -> (crew: Self)
        requires
            tree.wf(),
        ensures
            crew.wf(),
            crew.merge() == tree.merge(),
            crew@.tree == tree@,
            crew@.tasks.len() == workers,
            crew@.quiet(),
    {
        let mut tasks: Vec<Task<T>> = Vec::new();
        let mut i: usize = 0;
        while i < workers
            invariant
                i <= workers,
                tasks@.len() == i,
                forall|j: int| 0 <= j < i ==> (#[trigger] tasks@[j])@ == TaskState::<T>::Idle,
            decreases workers - i,
        {
            tasks.push(Task::Idle);
            i = i + 1;
        }
        let crew = Crew { tree, tasks, loose: Vec::new() };
        proof {
            crew.lemma_view();
            crew@.lemma_quiet_crew();
            assert forall|n: usize| #[trigger] tree.stores(n) implies tree@.linked(n) by {
                tree.lemma_stored(n);
            }
        }
        crew
    }

    /// Gives the tree back when nobody has anything in hand.
    pub fn disband(self) -> (tree: Tree<T, M>)
        requires
            self.wf(),
            self@.quiet(),
        ensures
            tree.wf(),
            tree.merge() == self.merge(),
            tree@ == self@.tree,
    {
        let mut crew = self;
        proof {
            crew.lemma_view();
            crew@.law_quiet_tree_is_sound();
            assert forall|i: int| 0 <= i < crew@.tasks.len() implies !(#[trigger] crew@.tasks[i]
                is Read) && !(crew@.tasks[i] is Retire) by {
                assert(crew@.tasks[i] == TaskState::<T>::Idle);
            }
        }
        crew.tidy();
        crew.tree
    }

    /// Worker `i` sets out to read-modify-write the data of a node. The write is
    /// made at once; the flags of the ancestors are raised in the steps to come.
    pub fn begin_update(&mut self, i: usize, handle: &Mergex<T>, f: impl FnOnce(&mut T))
        requires
            old(self).wf(),
            i < old(self)@.tasks.len(),
            old(self)@.tasks[i as int] is Idle,
            old(self)@.tree.held(handle.id()),
            forall|slot: &mut T|
                *slot == old(self)@.tree.node(handle.id()).data ==> #[trigger] call_requires(
                    f,
                    (slot,),
                ),
        ensures
            final(self).wf(),
            final(self).merge() == old(self).merge(),
            exists|slot: &mut T|
                *slot == old(self)@.tree.node(handle.id()).data && *final(slot)
                    == final(self)@.tree.node(handle.id()).data && #[trigger] call_ensures(
                    f,
                    (slot,),
                    (),
                ),
            final(self)@ == old(self)@.began_write(
                i as int,
                handle.id(),
                final(self)@.tree.node(handle.id()).data,
            ),
    {
        let ghost before = self@;
        let n: usize = handle.name();
        proof {
            self.lemma_held_is_stored(n);
        }
        let was_dirty: bool = self.tree.write(n, f);
        let ghost data = self@.tree.node(n).data;
        let task = Self::marking(n, Climb::after_write(was_dirty, self.tree.depth(n)));
        self.assign(i, task);
        proof {
            before.tree.lemma_shallow(n);
            before.law_a_write_may_begin(i as int, n, data);
            assert(self@ =~= before.began_write(i as int, n, data));
            self.lemma_store_kept(*old(self), i as int);
        }
    }

    /// Worker `i` sets out to overwrite the data of a node.
    pub fn begin_set(&mut self, i: usize, handle: &Mergex<T>, data: T)
        requires
            old(self).wf(),
            i < old(self)@.tasks.len(),
            old(self)@.tasks[i as int] is Idle,
            old(self)@.tree.held(handle.id()),
        ensures
            final(self).wf(),
            final(self).merge() == old(self).merge(),
            final(self)@ == old(self)@.began_write(i as int, handle.id(), data),
    {
        let overwrite = |slot: &mut T| -> (done: ())
            ensures
                *final(slot) == data,
            {
                *slot = data;
            };
        self.begin_update(i, handle, overwrite);
    }

    /// Worker `i` sets out to read a node.
    pub fn begin_get(&mut self, i: usize, handle: &Mergex<T>)
        requires
            old(self).wf(),
            i < old(self)@.tasks.len(),
            old(self)@.tasks[i as int] is Idle,
            old(self)@.tree.held(handle.id()),
        ensures
            final(self).wf(),
            final(self).merge() == old(self).merge(),
            final(self)@ == old(self)@.began_read(i as int, handle.id()),
            final(self)@.tree == old(self)@.tree,
            final(self)@.tasks[i as int] matches TaskState::Read(walk) && walk.origin == handle.id()
                && walk.frames.len() == 0 && walk.stage is Enter,
    {
        let ghost before = self@;
        let n: usize = handle.name();
        self.assign(i, Task::Read(Walk::new(n)));
        proof {
            before.law_a_read_may_begin(i as int, n);
            self.lemma_store_kept(*old(self), i as int);
        }
    }

    /// Worker `i` sets out to give a handle up.
    pub fn begin_drop(&mut self, i: usize, handle: Mergex<T>)
        requires
            old(self).wf(),
            i < old(self)@.tasks.len(),
            old(self)@.tasks[i as int] is Idle,
            old(self)@.may_release(handle.id()),
        ensures
            final(self).wf(),
            final(self).merge() == old(self).merge(),
            final(self)@ == old(self)@.began_release(i as int, handle.id()),
            final(self)@.tree.node(handle.id()).handles == old(self)@.tree.node(
                handle.id(),
            ).handles - 1,
            forall|x: usize|
                old(self)@.tree.has(x) && x != handle.id() ==> #[trigger] final(self)@.tree.node(x)
                    == old(self)@.tree.node(x),
    {
        let ghost before = self@;
        let n: usize = handle.name();
        proof {
            self.lemma_held_is_stored(n);
        }
        let handles: usize = self.tree.load_handles(n);
        self.tree.store_handles(n, handles - 1);
        let task = if retires(handles) {
            Task::Retire(n)
        } else {
            Task::Idle
        };
        self.assign(i, task);
        proof {
            before.law_a_handle_may_go(i as int, n);
            assert(self@ =~= before.began_release(i as int, n));
            self.lemma_store_kept(*old(self), i as int);
        }
    }

    /// Worker `i` clones a handle.
    pub fn share(&mut self, i: usize, handle: &Mergex<T>) -> (other: Mergex<T>)
        requires
            old(self).wf(),
            i < old(self)@.tasks.len(),
            old(self)@.tasks[i as int] is Idle,
            old(self)@.tree.held(handle.id()),
            old(self)@.tree.node(handle.id()).handles < usize::MAX,
        ensures
            final(self).wf(),
            final(self).merge() == old(self).merge(),
            other.id() == handle.id(),
            final(self)@ == old(self)@.shared(handle.id()),
            final(self)@.tree.node(handle.id()).handles == old(self)@.tree.node(
                handle.id(),
            ).handles + 1,
            forall|x: usize|
                old(self)@.tree.has(x) && x != handle.id() ==> #[trigger] final(self)@.tree.node(x)
                    == old(self)@.tree.node(x),
    {
        let ghost before = self@;
        let n: usize = handle.name();
        proof {
            self.lemma_held_is_stored(n);
        }
        let handles: usize = self.tree.load_handles(n);
        self.tree.store_handles(n, handles + 1);
        proof {
            before.law_a_handle_may_be_shared(i as int, n);
            assert(self@ =~= before.shared(n));
            assert(self.tasks == old(self).tasks);
            assert(old(self).tree.serves_task(old(self).tasks@[i as int]@));
            self.lemma_store_kept(*old(self), i as int);
        }
        Mergex::to(n)
    }

    /// Worker `i` registers a new son of a node.
    pub fn register(&mut self, i: usize, handle: &Mergex<T>) -> (son: Mergex<T>)
        requires
            old(self).wf(),
            i < old(self)@.tasks.len(),
            old(self)@.tasks[i as int] is Idle,
            old(self)@.tree.held(handle.id()),
            old(self)@.tree.nodes.len() < usize::MAX,
        ensures
            final(self).wf(),
            final(self).merge() == old(self).merge(),
            son.id() == old(self)@.tree.nodes.len(),
            cloned(old(self)@.tree.identity, final(self)@.tree.node(son.id()).data),
            final(self)@ == old(self)@.registered(
                handle.id(),
                final(self)@.tree.node(son.id()).data,
            ),
            final(self)@.tree.node(son.id()).handles == 1,
            !final(self)@.tree.node(son.id()).dead,
            final(self)@.tree.node(son.id()).ancestors == seq![handle.id()] + old(self)@.tree.node(
                handle.id(),
            ).ancestors,
            final(self)@.tree.node(handle.id()).sons == old(self)@.tree.node(
                handle.id(),
            ).sons.push(son.id()),
            forall|x: usize|
                old(self)@.tree.has(x) && x != handle.id() ==> #[trigger] final(self)@.tree.node(x)
                    == old(self)@.tree.node(x),
    {
        let ghost before = self@;
        let n: usize = handle.name();
        proof {
            self.lemma_held_is_stored(n);
        }
        let son: usize = self.tree.grow(n);
        proof {
            let data = self@.tree.node(son).data;
            before.law_a_son_may_be_registered(i as int, n, data);
            assert(self@ =~= before.registered(n, data));
            self.lemma_store_grown(*old(self), n, son);
        }
        Mergex::to(son)
    }

    /// Worker `i` touches the tree once. A read that comes to its end returns
    /// the data of its node. Where the touch is a fold, it must be one that the fold
    /// may be called for.
    pub fn step(&mut self, i: usize) -> (read: Option<T>)
        requires
            old(self).wf(),
            i < old(self)@.tasks.len(),
            old(self)@.tasks[i as int] matches TaskState::Read(walk) ==> (
            walk.stage matches Stage::Fold(delta) ==> may_fold(
                old(self).merge(),
                old(self)@.tree.node(walk.place(walk.frames.len() - 1)).data,
                delta,
            )),
        ensures
            final(self).wf(),
            final(self).merge() == old(self).merge(),
            ({
                let v = final(self)@.tree.node(
                    TreeState::<T>::task_site(old(self)@.tasks[i as int]),
                ).data;
                final(self)@ == old(self)@.stepped(|a: T, b: T| v, v, i as int)
            }),
            old(self)@.tasks[i as int] matches TaskState::Read(walk) && walk.stage is Take ==> cloned(
                old(self)@.tree.identity,
                final(self)@.tree.node(
                    TreeState::<T>::task_site(old(self)@.tasks[i as int]),
                ).data,
            ),
            forall|g: spec_fn(T, T) -> T|
                (forall|father: &mut T, son: &T| #[trigger]
                    call_ensures(old(self).merge(), (father, son), ()) ==> *final(father) == g(
                        *father,
                        *son,
                    )) ==> final(self)@ == #[trigger] old(self)@.stepped(
                    g,
                    final(self)@.tree.node(
                        TreeState::<T>::task_site(old(self)@.tasks[i as int]),
                    ).data,
                    i as int,
                ),
            (forall|j: int|
                0 <= j < final(self)@.tasks.len() ==> !(#[trigger] final(self)@.tasks[j] is Read)
                    && !(final(self)@.tasks[j] is Retire)) ==> final(self).neat(),
            match old(self)@.tasks[i as int] {
                TaskState::Read(walk) => match walk.stage {
                    Stage::Done(changed) => read is Some && cloned(
                        old(self)@.tree.node(walk.origin).data,
                        read->Some_0,
                    ),
                    _ => read is None,
                },
                _ => read is None,
            },
    {
        let ghost before = self@;
        proof {
            self.lemma_view();
            assert(before.tree.admits(before.tasks[i as int]));
        }
        let mut task = Task::Idle;
        std::mem::swap(&mut task, &mut self.tasks[i]);
        assert(task@ == before.tasks[i as int]);
        assert(self@ =~= before.assigned(before.tree, i as int, TaskState::Idle));
        let ghost site = TreeState::<T>::task_site(before.tasks[i as int]);
        let mut read: Option<T> = None;
        let next = match task {
            Task::Read(walk) => {
                let finished: Option<bool> = match walk.action() {
                    Action::Finish(changed) => Some(changed),
                    _ => None,
                };
                match finished {
                    Some(changed) => {
                        let n: usize = *walk.origin();
                        proof {
                            old(self).lemma_held_is_stored(n);
                        }
                        read = Some(self.tree.data(n).clone());
                        let depth: usize = self.tree.depth(n);
                        proof {
                            before.tree.lemma_shallow(n);
                        }
                        if owes(changed, depth) {
                            let was_dirty: bool = self.tree.load_dirty(n);
                            self.tree.store_dirty(n, true);
                            Self::marking(n, Climb::after_write(was_dirty, depth))
                        } else {
                            Task::Idle
                        }
                    },
                    None => {
                        proof {
                            before.tree.lemma_reaches(walk@);
                            old(self).lemma_serves_walk(walk@);
                        }
                        let reply = self.tree.touch(walk.action(), &mut self.loose);
                        proof {
                            let stored = old(self).tree;
                            let listed = reply@;
                            if walk@.stage is List {
                                let p = walk@.place(walk@.frames.len() - 1);
                                let sons = before.tree.node(p).sons;
                                assert(listed->Sons_0 == sons);
                                assert forall|j: int| 0 <= j < listed->Sons_0.len() implies
                                    stored.stores(#[trigger] listed->Sons_0[j]) by {
                                    assert(stored.stores(sons[j]));
                                }
                            }
                            stored.lemma_serves_next(self.tree, walk@, reply@);
                        }
                        Task::Read(walk.resume(reply))
                    },
                }
            },
            Task::Mark(n, climb) => {
                proof {
                    before.tree.lemma_ancestor(n, climb.next as int);
                    old(self).lemma_held_is_stored(n);
                }
                let a: usize = self.tree.ancestor(n, climb.next);
                let was_up: bool = self.tree.swap_subtree_dirty(a, true);
                Self::marking(n, climb.resume(was_up))
            },
            Task::Retire(n) => {
                self.tree.store_dead(n);
                Task::Idle
            },
            Task::Idle => Task::Idle,
        };
        let ghost v = self.tree@.node(site).data;
        let ghost tree_now = self.tree@;
        let ghost task_now = next@;
        self.assign(i, next);
        proof {
            assert((tree_now, task_now) == before.tree.worked(
                |a: T, b: T| v,
                v,
                before.tasks[i as int],
            ));
            let was = old(self).tasks@;
            assert(self.tasks@ =~= was.update(i as int, self.tasks@[i as int]));
            self.lemma_step_store(*old(self), i as int);
        }
        // nobody refers to what is loose any more
        if self.loose.len() > 0 && self.is_calm() {
            self.tidy();
        }
        proof {
            assert(self@ =~= before.stepped(|a: T, b: T| v, v, i as int));
            assert forall|g: spec_fn(T, T) -> T|
                (forall|father: &mut T, son: &T| #[trigger]
                    call_ensures(old(self).merge(), (father, son), ()) ==> *final(father) == g(
                        *father,
                        *son,
                    )) implies self@ == #[trigger] before.stepped(g, v, i as int) by {
                assert((tree_now, task_now) == before.tree.worked(g, v, before.tasks[i as int]));
                assert(self@ =~= before.stepped(g, v, i as int));
            }
            let takes = before.tasks[i as int] matches TaskState::Read(walk) && walk.stage is Take;
            if takes {
                before.law_every_step_keeps_the_crew_sound(|a: T, b: T| v, v, i as int);
            } else {
                let e = before.tree.identity;
                assert(before.stepped(|a: T, b: T| v, e, i as int) == before.stepped(
                    |a: T, b: T| v,
                    v,
                    i as int,
                ));
                before.law_every_step_keeps_the_crew_sound(|a: T, b: T| v, e, i as int);
            }
        }
        read
    }
}

impl<T> TreeState<T> {
    /// A walk only ever touches nodes of the tree.
    proof fn lemma_reaches(self, walk: WalkState<usize, T>)
        requires
            self.held(walk.origin),
            self.vouches(walk),
        ensures
            self.reaches(walk.deed()),
    {
        if walk.stage is Enter {
            self.lemma_place(walk, walk.frames.len() as int);
        } else if !(walk.stage is Done) {
            self.lemma_place(walk, walk.frames.len() - 1);
            if !(walk.stage is List) && !(walk.stage is Unlink) {
                self.lemma_place(walk, walk.frames.len() as int);
            }
        }
    }
}

} // verus!
