//! Every operation comes to its end, whatever the others do meanwhile.
use vstd::prelude::*;

use crate::climb::Climb;
use crate::interleave::CrewState;
use crate::interleave::TaskState;
use crate::probe::Look;
use crate::probe::ProbeState;
use crate::probe::ShelfState;
use crate::state::NodeState;
use crate::state::TreeState;
use crate::walk::Deed;
use crate::walk::Found;
use crate::walk::FrameState;
use crate::walk::Stage;
use crate::walk::WalkState;

verus! {

impl<T> TreeState<T> {
    /// A bound on the touches that a walk needs for the given sons of `n`: for each
    /// of them one to enter it, two around its own sons, and seven to settle it.
    pub open spec fn effort(self, n: usize, sons: Seq<usize>) -> nat
        decreases self.nodes.len() - n, sons.len(),
    {
        if sons.len() == 0 {
            0
        } else {
            let s = sons.last();
            let below = if n < s && self.has(s) {
                self.effort(s, self.node(s).sons)
            } else {
                0
            };
            self.effort(n, sons.drop_last()) + 10 + below
        }
    }

    /// The touches for one son of `n`.
    spec fn effort_of(self, n: usize, s: usize) -> nat {
        10 + if n < s && self.has(s) {
            self.effort(s, self.node(s).sons)
        } else {
            0
        }
    }

    /// The first of the sons, and the others.
    proof fn lemma_effort_first(self, n: usize, sons: Seq<usize>)
        requires
            sons.len() > 0,
        ensures
            self.effort(n, sons) == self.effort_of(n, sons[0]) + self.effort(n, sons.skip(1)),
        decreases sons.len(),
    {
        if sons.len() == 1 {
            assert(sons.drop_last() =~= Seq::empty());
            assert(sons.skip(1) =~= Seq::empty());
        } else {
            self.lemma_effort_first(n, sons.drop_last());
            assert(sons.skip(1).drop_last() =~= sons.drop_last().skip(1));
            assert(sons.skip(1).last() == sons.last());
        }
    }

    /// Lists that have only got shorter take no more.
    proof fn lemma_effort_shrinks(self, new: Self, n: usize, sons: Seq<usize>)
        requires
            new.nodes.len() == self.nodes.len(),
            forall|x: usize| self.has(x) ==> #[trigger] self.shortens(new, x),
        ensures
            new.effort(n, sons) <= self.effort(n, sons),
        decreases self.nodes.len() - n, sons.len(),
    {
        if sons.len() > 0 {
            let s = sons.last();
            self.lemma_effort_shrinks(new, n, sons.drop_last());
            if n < s && self.has(s) {
                self.lemma_effort_shrinks(new, s, new.node(s).sons);
                assert(self.shortens(new, s));
            }
        }
    }

    /// The sons that `x` lists in `new` take no more here than those it lists here.
    spec fn shortens(self, new: Self, x: usize) -> bool {
        self.effort(x, new.node(x).sons) <= self.effort(x, self.node(x).sons)
    }

    /// A list with some of the sons left out takes no more.
    proof fn lemma_effort_filter(self, n: usize, sons: Seq<usize>, p: spec_fn(usize) -> bool)
        ensures
            self.effort(n, sons.filter(p)) <= self.effort(n, sons),
        decreases sons.len(),
    {
        reveal(Seq::filter);
        if sons.len() > 0 {
            let init = sons.drop_last();
            self.lemma_effort_filter(n, init, p);
            if p(sons.last()) {
                assert(init.filter(p).push(sons.last()).drop_last() =~= init.filter(p));
            }
        }
    }

    /// The touches left for a node that a walk is inside of, apart from the son
    /// whose turn it is.
    spec fn frame_rest(self, walk: WalkState<usize, T>, k: int) -> nat {
        let frame = walk.frames[k];
        self.effort(walk.place(k), frame.sons.skip(frame.at + 1)) + 1
    }

    /// The touches left for the first `k` nodes that a walk is inside of, while it
    /// is inside of their sons.
    spec fn outer_rest(self, walk: WalkState<usize, T>, k: nat) -> nat
        decreases k,
    {
        if k == 0 {
            0
        } else {
            self.outer_rest(walk, (k - 1) as nat) + self.frame_rest(walk, k - 1) + 7
        }
    }

    /// The touches left for the son whose turn it is.
    spec fn stage_rest(self, walk: WalkState<usize, T>) -> nat {
        match walk.stage {
            Stage::Dirty(changed) => 7,
            Stage::Take => 6,
            Stage::Fold(delta) => 5,
            Stage::Dead => 4,
            Stage::Handles => 3,
            Stage::Clean => 2,
            Stage::Empty => 1,
            _ => 0,
        }
    }

    /// A bound on the touches that a walk has left, unless new sons are registered
    /// on its way.
    pub closed spec fn rest(self, walk: WalkState<usize, T>) -> nat {
        let last = walk.frames.len() - 1;
        let top = walk.top();
        match walk.stage {
            Stage::Done(changed) => 0,
            Stage::Enter => if last < 0 {
                self.effort(walk.origin, self.node(walk.origin).sons) + 3
            } else {
                self.outer_rest(walk, last as nat) + self.effort(
                    walk.place(last),
                    top.sons.skip(top.at as int),
                ) + 1
            },
            Stage::List => self.outer_rest(walk, last as nat) + self.effort(
                walk.place(last),
                self.node(walk.place(last)).sons,
            ) + 2,
            Stage::Unlink => self.outer_rest(walk, last as nat) + 1,
            _ => self.outer_rest(walk, last as nat) + self.frame_rest(walk, last)
                + self.stage_rest(walk),
        }
    }

    /// Equal outer frames leave equal touches.
    proof fn lemma_outer_same(
        self,
        walk: WalkState<usize, T>,
        other: WalkState<usize, T>,
        k: nat,
    )
        requires
            walk.origin == other.origin,
            k <= walk.frames.len(),
            k <= other.frames.len(),
            forall|j: int|
                0 <= j < k ==> (#[trigger] walk.frames[j]).sons == other.frames[j].sons
                    && walk.frames[j].at == other.frames[j].at,
        ensures
            self.outer_rest(walk, k) == self.outer_rest(other, k),
        decreases k,
    {
        if k > 0 {
            self.lemma_outer_same(walk, other, (k - 1) as nat);
            assert(walk.frames[k - 1].sons == other.frames[k - 1].sons);
            if k > 1 {
                assert(walk.frames[k - 2].sons == other.frames[k - 2].sons);
            }
        }
    }

    /// Where the lists have only got shorter, no more is left.
    proof fn lemma_outer_shrinks(self, new: Self, walk: WalkState<usize, T>, k: nat)
        requires
            new.nodes.len() == self.nodes.len(),
            forall|x: usize| self.has(x) ==> #[trigger] self.shortens(new, x),
            k <= walk.frames.len(),
        ensures
            new.outer_rest(walk, k) <= self.outer_rest(walk, k),
        decreases k,
    {
        if k > 0 {
            self.lemma_outer_shrinks(new, walk, (k - 1) as nat);
            let frame = walk.frames[k - 1];
            self.lemma_effort_shrinks(new, walk.place(k - 1), frame.sons.skip(frame.at + 1));
        }
    }

    /// On to the next son, or out of the node, at most as much is left as the
    /// frame has ahead.
    proof fn lemma_rest_seeking(self, walk: WalkState<usize, T>, top: FrameState<usize>)
        requires
            walk.frames.len() > 0,
            walk.fits(),
        ensures
            self.rest(walk.seeking(top)) <= self.outer_rest(
                walk,
                (walk.frames.len() - 1) as nat,
            ) + self.effort(
                walk.place(walk.frames.len() - 1),
                if top.busy() {
                    top.sons.skip(top.at as int)
                } else {
                    Seq::empty()
                },
            ) + 1,
    {
        let new = walk.seeking(top);
        let last = walk.frames.len() - 1;
        let whole = walk.frames.drop_last().push(top);
        assert(whole.drop_last() =~= walk.frames.drop_last());
        if last > 0 {
            assert(whole[last - 1] == walk.frames[last - 1]);
        }
        if top.busy() {
            self.lemma_outer_same(walk, new, last as nat);
        } else if top.spent.len() > 0 {
            self.lemma_outer_same(walk, new, last as nat);
        } else if last > 0 {
            assert(new.frames.len() == last);
            self.lemma_outer_same(walk, new, (last - 1) as nat);
            assert(new.frames[last - 1] == walk.frames[last - 1]);
            if last > 1 {
                assert(new.frames[last - 2] == walk.frames[last - 2]);
            }
        }
    }

    /// Where the lists have only got shorter, a walk has no more left.
    proof fn lemma_rest_shrinks(self, new: Self, walk: WalkState<usize, T>)
        requires
            new.nodes.len() == self.nodes.len(),
            forall|x: usize| self.has(x) ==> #[trigger] self.shortens(new, x),
            self.has(walk.origin),
            walk.frames.len() > 0 || walk.stage is Enter || walk.stage is Done,
            walk.stage is List ==> self.has(walk.place(walk.frames.len() - 1)),
        ensures
            new.rest(walk) <= self.rest(walk),
    {
        let last = walk.frames.len() - 1;
        let top = walk.top();
        if last >= 0 {
            self.lemma_outer_shrinks(new, walk, last as nat);
            self.lemma_effort_shrinks(new, walk.place(last), top.sons.skip(top.at as int));
            self.lemma_effort_shrinks(new, walk.place(last), top.sons.skip(top.at + 1));
        }
        let n = if last < 0 {
            walk.origin
        } else {
            walk.place(last)
        };
        if self.has(n) {
            self.lemma_effort_shrinks(new, n, new.node(n).sons);
            assert(self.shortens(new, n));
        }
    }

    /// No touch of a walk makes a list longer.
    proof fn lemma_touch_shrinks(self, g: spec_fn(T, T) -> T, fresh: T, walk: WalkState<usize, T>)
        requires
            self.has(walk.origin),
            self.vouches(walk),
        ensures
            self.touched(g, fresh, walk.deed()).0.nodes.len() == self.nodes.len(),
            forall|x: usize|
                self.has(x) ==> #[trigger] self.shortens(
                    self.touched(g, fresh, walk.deed()).0,
                    x,
                ),
            forall|x: usize|
                self.has(x) ==> (#[trigger] self.touched(g, fresh, walk.deed()).0.node(x)).ancestors
                    == self.node(x).ancestors,
    {
        let new = self.touched(g, fresh, walk.deed()).0;
        let len = walk.frames.len();
        if walk.stage is Enter || self.stage_rest(walk) > 0 {
            self.lemma_place(walk, len as int);
        }
        if len > 0 {
            self.lemma_place(walk, len - 1);
        }
        assert forall|x: usize| self.has(x) implies #[trigger] self.shortens(new, x) by {
            if let Deed::Unlink(p, marked) = walk.deed() {
                let keep = |s: usize|
                    !(marked.contains(s) && self.node(s).handles == 0 && !self.node(s).dirty);
                self.lemma_effort_filter(x, self.node(x).sons, keep);
            }
        }
    }

    /// No step of a worker makes a list longer.
    proof fn lemma_work_shrinks(self, g: spec_fn(T, T) -> T, fresh: T, task: TaskState<T>)
        requires
            self.shaped(),
            self.admits(task),
        ensures
            self.worked(g, fresh, task).0.nodes.len() == self.nodes.len(),
            forall|x: usize|
                self.has(x) ==> #[trigger] self.shortens(self.worked(g, fresh, task).0, x),
            forall|x: usize|
                self.has(x) ==> (#[trigger] self.worked(g, fresh, task).0.node(x)).ancestors
                    == self.node(x).ancestors,
    {
        let new = self.worked(g, fresh, task).0;
        match task {
            TaskState::Read(walk) => {
                self.lemma_touch_shrinks(g, fresh, walk);
            },
            TaskState::Mark(n, climb) => {
                self.lemma_ancestor(n, climb.next as int);
            },
            _ => {},
        }
        if !(task is Read) || task->Read_0.stage is Done {
            assert forall|x: usize| self.has(x) implies (#[trigger] new.node(x)).sons == self.node(
                x,
            ).sons by {}
        }
    }

    /// Past the son whose turn it was, less is left.
    proof fn lemma_rest_past(self, walk: WalkState<usize, T>, top: FrameState<usize>)
        requires
            self.vouches(walk),
            walk.frames.len() > 0,
            top.sons == walk.top().sons,
            top.at == walk.top().at,
            top.busy(),
            self.stage_rest(walk) > 0,
        ensures
            self.rest(walk.past(top)) < self.rest(walk),
    {
        let last = walk.frames.len() - 1;
        assert(walk.frames[last].sons.len() <= usize::MAX);
        self.lemma_rest_seeking(walk, FrameState { at: (top.at + 1) as usize, ..top });
    }

    /// Into a son, or past its flag, less is left.
    proof fn lemma_rest_entered(self, walk: WalkState<usize, T>, flag: bool)
        requires
            self.shaped(),
            self.vouches(walk),
            walk.stage is Enter,
        ensures
            self.rest(walk.next(Found::Flag(flag))) < self.rest(walk),
    {
        let last = walk.frames.len() - 1;
        let next = walk.next(Found::Flag(flag));
        let top = walk.top();
        if last >= 0 {
            let at = top.at as int;
            let s = top.sons[at];
            let ahead = top.sons.skip(at);
            assert(walk.frames[last] == top);
            assert(self.has(walk.frames[last].sons[at]));
            assert(self.descends(s));
            self.lemma_effort_first(walk.place(last), ahead);
            assert(ahead[0] == s);
            assert(ahead.skip(1) =~= top.sons.skip(at + 1));
            self.lemma_outer_same(walk, next, last as nat);
            if last > 0 {
                assert(next.frames[last - 1] == walk.frames[last - 1]);
            }
            if flag {
                assert(next.frames[last] == top);
                assert(next.place(last + 1) == s);
                assert(self.frame_rest(next, last) == self.frame_rest(walk, last));
            }
        }
    }

    /// Whatever is found, a touch of its own brings a walk nearer to its end.
    proof fn lemma_rest_next(self, walk: WalkState<usize, T>, found: Found<usize, T>)
        requires
            self.shaped(),
            self.vouches(walk),
            walk.awaits(found),
            !(walk.stage is Done),
            walk.stage is List ==> found->Sons_0 == self.node(
                walk.place(walk.frames.len() - 1),
            ).sons,
        ensures
            self.rest(walk.next(found)) < self.rest(walk),
    {
        let last = walk.frames.len() - 1;
        let top = walk.top();
        let next = walk.next(found);
        if walk.stage is Enter {
            self.lemma_rest_entered(walk, found->Flag_0);
        } else if walk.stage is List {
            let whole = FrameState { sons: found->Sons_0, ..top };
            self.lemma_rest_seeking(walk, whole);
            assert(whole.sons.skip(0) =~= whole.sons);
        } else if walk.stage is Unlink {
            if last > 0 {
                self.lemma_outer_same(walk, next, (last - 1) as nat);
                assert(next.frames[last - 1] == walk.frames[last - 1]);
                if last > 1 {
                    assert(next.frames[last - 2] == walk.frames[last - 2]);
                }
            }
        } else if next == walk.past(top) {
            self.lemma_rest_past(walk, top);
        } else if walk.stage is Empty {
            self.lemma_rest_past(walk, FrameState { spent: top.spent.push(top.at), ..top });
        } else {
            self.lemma_outer_same(walk, next, last as nat);
            if last > 0 {
                assert(next.frames[last - 1] == walk.frames[last - 1]);
            }
            assert(self.frame_rest(next, last) == self.frame_rest(walk, last));
        }
    }

    /// A touch of its own brings a walk nearer to its end.
    proof fn lemma_rest_falls(self, g: spec_fn(T, T) -> T, fresh: T, walk: WalkState<usize, T>)
        requires
            self.shaped(),
            self.has(walk.origin),
            self.vouches(walk),
            !(walk.stage is Done),
        ensures
            ({
                let (new, found) = self.touched(g, fresh, walk.deed());
                new.rest(walk.next(found)) < self.rest(walk)
            }),
    {
        let (new, found) = self.touched(g, fresh, walk.deed());
        self.lemma_rest_next(walk, found);
        self.lemma_touch_shrinks(g, fresh, walk);
        if walk.stage is Enter {
            self.lemma_place(walk, walk.frames.len() as int);
        }
        self.lemma_rest_shrinks(new, walk.next(found));
    }
}

impl<T> CrewState<T> {
    /// A bound on the steps that the operation in the hands of worker `i` has left,
    /// unless new sons are registered on its way.
    pub open spec fn steps_left(self, i: int) -> nat {
        match self.tasks[i] {
            TaskState::Read(walk) => self.tree.rest(walk) + self.tree.node(
                walk.origin,
            ).ancestors.len() + 1,
            TaskState::Mark(node, climb) => (climb.end - climb.next) as nat,
            TaskState::Retire(n) => 1,
            TaskState::Idle => 0,
        }
    }

    /// The crew after `k` more steps of worker `i`.
    pub open spec fn after_steps(self, g: spec_fn(T, T) -> T, i: int, k: nat) -> Self
        decreases k,
    {
        if k == 0 {
            self
        } else {
            self.stepped(g, self.tree.identity, i).after_steps(g, i, (k - 1) as nat)
        }
    }

    /// Worker `i` is about to return what it read.
    pub open spec fn has_read(self, i: int) -> bool {
        self.tasks[i] is Read && self.tasks[i]->Read_0.stage is Done
    }
}

impl<T: Clone> CrewState<T> {
    /// Every operation comes to its end: each step of a worker brings its own
    /// operation nearer to the end, and sets back no other.
    pub proof fn law_every_operation_comes_to_its_end(
        self,
        g: spec_fn(T, T) -> T,
        fresh: T,
        i: int,
        j: int,
    )
        requires
            self.sound(),
            self.employs(i),
            self.employs(j),
        ensures
            self.tasks[i] != TaskState::<T>::Idle ==> self.stepped(g, fresh, i).steps_left(i)
                < self.steps_left(i),
            self.stepped(g, fresh, i).steps_left(j) <= self.steps_left(j),
    {
        let tree = self.tree;
        let new = self.stepped(g, fresh, i);
        assert(tree.admits(self.tasks[i]));
        assert(tree.admits(self.tasks[j]));
        tree.lemma_work_shrinks(g, fresh, self.tasks[i]);
        if let TaskState::Read(walk) = self.tasks[i] {
            if walk.stage is Done {
                tree.lemma_shallow(walk.origin);
            } else {
                tree.lemma_rest_falls(g, fresh, walk);
            }
        }
        if i != j {
            if let TaskState::Read(walk) = self.tasks[j] {
                if walk.stage is List {
                    tree.lemma_place(walk, walk.frames.len() - 1);
                }
                tree.lemma_rest_shrinks(new.tree, walk);
            }
        }
    }

    /// What others begin does not set an operation back: not a write, nor a read,
    /// nor a handle given up or cloned.
    pub proof fn law_nobody_sets_another_back(self, i: int, j: int, n: usize, data: T)
        requires
            self.sound(),
            self.employs(i),
            self.employs(j),
            i != j,
            self.tree.held(n),
        ensures
            self.began_write(i, n, data).steps_left(j) <= self.steps_left(j),
            self.began_read(i, n).steps_left(j) <= self.steps_left(j),
            self.began_release(i, n).steps_left(j) <= self.steps_left(j),
            self.shared(n).steps_left(j) <= self.steps_left(j),
    {
        let tree = self.tree;
        assert(tree.admits(self.tasks[j]));
        if let TaskState::Read(walk) = self.tasks[j] {
            if walk.stage is List {
                tree.lemma_place(walk, walk.frames.len() - 1);
            }
            let write = self.began_write(i, n, data).tree;
            let release = self.began_release(i, n).tree;
            let shared = self.shared(n).tree;
            assert forall|x: usize|
                #![trigger tree.shortens(write, x)]
                #![trigger tree.shortens(release, x)]
                #![trigger tree.shortens(shared, x)]
                tree.has(x) implies tree.shortens(write, x) && tree.shortens(release, x)
                && tree.shortens(shared, x) by {
                assert(write.node(x).sons == tree.node(x).sons);
                assert(release.node(x).sons == tree.node(x).sons);
                assert(shared.node(x).sons == tree.node(x).sons);
            }
            tree.lemma_rest_shrinks(write, walk);
            tree.lemma_rest_shrinks(release, walk);
            tree.lemma_rest_shrinks(shared, walk);
        }
    }

    /// The steps of a worker whom nobody disturbs are the touches of its walk.
    proof fn lemma_steps_are_touches(self, g: spec_fn(T, T) -> T, i: int, k: nat) -> (j: nat)
        requires
            self.employs(i),
            self.tasks[i] is Read,
            self.tree.strode(g, self.tasks[i]->Read_0, k).1.stage is Done,
        ensures
            ({
                let (tree, walk) = self.tree.strode(g, self.tasks[i]->Read_0, k);
                self.after_steps(g, i, j) == self.assigned(tree, i, TaskState::Read(walk))
            }),
        decreases k,
    {
        let walk = self.tasks[i]->Read_0;
        if walk.stage is Done {
            assert(self.assigned(self.tree, i, TaskState::Read(walk)) =~= self);
            0
        } else {
            let e = self.tree.identity;
            let (tree, found) = self.tree.touched(g, e, walk.deed());
            let new = self.stepped(g, e, i);
            assert(new == self.assigned(tree, i, TaskState::Read(walk.next(found))));
            let j = new.lemma_steps_are_touches(g, i, (k - 1) as nat);
            let (last, over) = tree.strode(g, walk.next(found), (k - 1) as nat);
            assert(new.assigned(last, i, TaskState::Read(over)) =~= self.assigned(
                last,
                i,
                TaskState::Read(over),
            ));
            j + 1
        }
    }

    proof fn lemma_steps_on(self, g: spec_fn(T, T) -> T, i: int, j: nat, k: nat)
        ensures
            self.after_steps(g, i, j).after_steps(g, i, k) == self.after_steps(g, i, j + k),
        decreases j,
    {
        if j > 0 {
            self.stepped(g, self.tree.identity, i).lemma_steps_on(g, i, (j - 1) as nat, k);
        }
    }

    /// A read of a quiet tree, step by step, comes to its end as a sweep does,
    /// whatever the fold: it returns what the node folds to, nothing below the node is
    /// pending then, and of the sons exactly those are left that have a handle or
    /// sons of their own.
    pub proof fn law_a_lone_read_returns_the_fold(
        self,
        g: spec_fn(T, T) -> T,
        i: int,
        n: usize,
    )
        requires
            self.tree.sound(),
            self.quiet(),
            self.employs(i),
            self.tree.held(n),
        ensures
            exists|k: nat|
                {
                    let end = #[trigger] self.began_read(i, n).after_steps(g, i, k);
                    &&& end.has_read(i)
                    &&& end.alone(i)
                    &&& self.tree.swept(end.tree, n)
                    &&& end.tree.node(n).data == self.tree.folded(g, n)
                    &&& !end.tree.stirred(n)
                    &&& self.tree.node(n).subtree_dirty ==> end.tree.node(n).sons
                        == self.tree.node(n).sons.filter(|s: usize| !end.tree.vacant(s))
                },
    {
        let k = self.lemma_lone_read(g, i, n);
        let end = self.began_read(i, n).after_steps(g, i, k);
        assert(end.has_read(i));
    }

    proof fn lemma_lone_read(self, g: spec_fn(T, T) -> T, i: int, n: usize) -> (k: nat)
        requires
            self.tree.sound(),
            self.quiet(),
            self.employs(i),
            self.tree.held(n),
        ensures
            ({
                let end = self.began_read(i, n).after_steps(g, i, k);
                &&& end.tasks.len() == self.tasks.len()
                &&& end.has_read(i)
                &&& end.alone(i)
                &&& end.tasks[i]->Read_0.origin == n
                &&& end.tasks[i]->Read_0.stage == Stage::<T>::Done(self.tree.stirred(n))
                &&& self.tree.swept(end.tree, n)
                &&& end.tree.node(n).data == self.tree.folded(g, n)
                &&& !end.tree.stirred(n)
                &&& self.tree.node(n).subtree_dirty ==> end.tree.node(n).sons
                    == self.tree.node(n).sons.filter(|s: usize| !end.tree.vacant(s))
            }),
    {
        let tree = self.tree;
        let start = self.began_read(i, n);
        tree.law_a_walk_alone_is_a_sweep(g, n);
        let touches = choose|k: nat|
            {
                let (new, walk) = #[trigger] tree.strode(g, WalkState::begun(n), k);
                &&& walk.stage == Stage::<T>::Done(tree.stirred(n))
                &&& walk.origin == n
                &&& tree.swept(new, n)
                &&& new.node(n).data == tree.folded(g, n)
            };
        let k = start.lemma_steps_are_touches(g, i, touches);
        let end = start.after_steps(g, i, k);
        assert forall|j: int| end.employs(j) && j != i implies #[trigger] end.tasks[j]
            == TaskState::<T>::Idle by {
            assert(self.tasks[j] == TaskState::<T>::Idle);
        }
        assert(!end.tree.stirred(n)) by {
            if end.tree.stirred(n) {
                let x = choose|x: usize|
                    end.tree.has(x) && #[trigger] end.tree.under(x, n) && end.tree.node(x).dirty;
                tree.lemma_same_under(end.tree, x, n);
                assert(tree.drained(end.tree, x));
            }
        }
        tree.lemma_sweep_leaves_no_vacancy(end.tree, n);
        k
    }

    /// A read of a quiet tree, step by step to its very end, makes of the tree what a
    /// read by the owner of the tree makes of it, whatever the fold.
    pub proof fn law_a_lone_read_is_a_read(self, g: spec_fn(T, T) -> T, i: int, n: usize)
        requires
            self.tree.sound(),
            self.quiet(),
            self.employs(i),
            self.tree.held(n),
        ensures
            exists|k: nat|
                {
                    let end = #[trigger] self.began_read(i, n).after_steps(g, i, k);
                    end.quiet() && self.tree.read(g, end.tree, n)
                },
    {
        let tree = self.tree;
        let start = self.began_read(i, n);
        let k = self.lemma_lone_read(g, i, n);
        let mid = start.after_steps(g, i, k);
        let e = mid.tree.identity;
        let one = mid.stepped(g, e, i);
        assert(one.after_steps(g, i, 0) == one);
        assert(mid.after_steps(g, i, 1) == one);
        start.lemma_steps_on(g, i, k, 1);
        let changed = tree.stirred(n);
        if n != 0 {
            assert(tree.descends(n));
        }
        assert(mid.tree.node(n).ancestors == tree.node(n).ancestors);
        let owes = changed && n != 0;
        let owed = mid.tree.dirtied(n);
        if owes {
            tree.lemma_cleared_either_way(mid.tree, n, true);
            assert(tree.collected(owed, n));
        } else {
            assert(tree.collected(mid.tree, n));
        }
        assert forall|j: int| mid.employs(j) && j != i implies #[trigger] one.tasks[j]
            == TaskState::<T>::Idle by {
            assert(mid.tasks[j] == TaskState::<T>::Idle);
        }
        if owes && !mid.tree.node(n).dirty {
            let up = tree.node(n).ancestors;
            let f = tree.father(n);
            tree.lemma_shallow(n);
            tree.lemma_under_root(n);
            tree.lemma_held_is_linked(n);
            assert(tree.announced(n));
            tree.lemma_coherent_branch(0, n);
            tree.lemma_stirred_is_flagged(n);
            if tree.within(f, n) && f != n {
                tree.lemma_under_is_younger(f, n);
            }
            assert(mid.tree.node(f) == tree.node(f));
            assert(one.tree == owed);
            let two = one.stepped(g, one.tree.identity, i);
            assert(two.tree =~= owed) by {
                assert(owed.node(f).subtree_dirty);
            }
            assert(two.after_steps(g, i, 0) == two);
            assert(one.after_steps(g, i, 1) == two);
            start.lemma_steps_on(g, i, k + 1, 1);
            let end = start.after_steps(g, i, k + 2);
            assert(end == two);
            assert forall|j: int| end.employs(j) implies #[trigger] end.tasks[j]
                == TaskState::<T>::Idle by {
                assert(j != i ==> one.tasks[j] == TaskState::<T>::Idle);
            }
            assert(end.quiet() && tree.read(g, end.tree, n));
        } else {
            let end = start.after_steps(g, i, k + 1);
            assert(end == one);
            assert(end.quiet());
            if owes {
                assert(one.tree =~= owed);
            }
            assert(tree.read(g, end.tree, n));
        }
    }
}

impl<T: Clone> CrewState<T> {
    /// A write to a quiet tree, step by step to its very end, makes of the tree what a
    /// write by the owner of the tree makes of it: every flag above the node is up.
    pub proof fn law_a_lone_write_is_a_write(
        self,
        g: spec_fn(T, T) -> T,
        i: int,
        n: usize,
        data: T,
    )
        requires
            self.tree.sound(),
            self.quiet(),
            self.employs(i),
            self.tree.held(n),
        ensures
            exists|k: nat|
                {
                    let end = #[trigger] self.began_write(i, n, data).after_steps(g, i, k);
                    end.quiet() && end.tree == self.tree.written(n, data)
                },
    {
        let tree = self.tree;
        let start = self.began_write(i, n, data);
        let up = tree.node(n).ancestors;
        tree.lemma_shallow(n);
        tree.lemma_held_is_linked(n);
        assert(start.alone(i)) by {
            assert forall|j: int| start.employs(j) && j != i implies #[trigger] start.tasks[j]
                == TaskState::<T>::Idle by {
                assert(self.tasks[j] == TaskState::<T>::Idle);
            }
        }
        if !tree.node(n).dirty && up.len() > 0 {
            assert forall|x: usize| tree.has(x) implies #[trigger] start.tree.node(x)
                == tree.half_written(n, data, 0, x) by {}
            let k = tree.lemma_climb_ends(start, g, i, n, data, 0);
            let end = start.after_steps(g, i, k);
            assert(end.quiet() && end.tree == tree.written(n, data));
        } else {
            assert(start.after_steps(g, i, 0) == start);
            assert(start.tree =~= tree.written(n, data)) by {
                if tree.node(n).dirty {
                    tree.lemma_marked_all(n, data);
                } else {
                    assert forall|x: int| 0 <= x < tree.nodes.len() implies #[trigger] start.tree.nodes[x]
                        == tree.written(n, data).nodes[x] by {
                        assert(!tree.under(n, x as usize));
                    }
                }
            }
            assert forall|j: int| start.employs(j) implies #[trigger] start.tasks[j]
                == TaskState::<T>::Idle by {}
            assert(start.after_steps(g, i, 0).quiet());
        }
    }

    /// A handle to a node of a quiet tree that is given up, step by step, makes of the
    /// tree what its owner giving the handle up makes of it.
    pub proof fn law_a_lone_drop_is_a_drop(self, g: spec_fn(T, T) -> T, i: int, n: usize)
        requires
            self.tree.sound(),
            self.quiet(),
            self.employs(i),
            self.tree.held(n),
        ensures
            self.began_release(i, n).after_steps(g, i, 1).quiet(),
            self.began_release(i, n).after_steps(g, i, 1).tree == self.tree.released(n),
    {
        let start = self.began_release(i, n);
        let end = start.stepped(g, start.tree.identity, i);
        assert(end.after_steps(g, i, 0) == end);
        assert(start.after_steps(g, i, 1) == end);
        assert(!self.tree.node(n).dead);
        assert(end.tree =~= self.tree.released(n));
        assert forall|j: int| end.employs(j) implies #[trigger] end.tasks[j]
            == TaskState::<T>::Idle by {
            if j != i {
                assert(self.tasks[j] == TaskState::<T>::Idle);
            }
        }
    }
}

impl<T> TreeState<T> {
    /// What `x` is while a write to `n` has raised the flags of the first `k` ancestors.
    spec fn half_written(self, n: usize, data: T, k: int, x: usize) -> NodeState<T> {
        let up = self.node(n).ancestors;
        if x == n {
            NodeState { data, dirty: true, ..self.node(n) }
        } else if exists|j: int| 0 <= j < k && #[trigger] up[j] == x {
            NodeState { subtree_dirty: true, ..self.node(x) }
        } else {
            self.node(x)
        }
    }
}

impl<T: Clone> TreeState<T> {
    /// A climb that nobody disturbs leaves every flag above its node up.
    proof fn lemma_climb_ends(
        self,
        crew: CrewState<T>,
        g: spec_fn(T, T) -> T,
        i: int,
        n: usize,
        data: T,
        k: int,
    ) -> (steps: nat)
        requires
            self.sound(),
            self.held(n),
            self.linked(n),
            crew.employs(i),
            crew.alone(i),
            0 <= k < self.node(n).ancestors.len() <= usize::MAX,
            crew.tasks[i] == TaskState::<T>::Mark(
                n,
                (Climb { next: k as usize, end: self.node(n).ancestors.len() as usize }),
            ),
            crew.tree.nodes.len() == self.nodes.len(),
            crew.tree.identity == self.identity,
            forall|x: usize|
                self.has(x) ==> #[trigger] crew.tree.node(x) == self.half_written(n, data, k, x),
        ensures
            crew.after_steps(g, i, steps).quiet(),
            crew.after_steps(g, i, steps).tree == self.written(n, data),
        decreases self.node(n).ancestors.len() - k,
    {
        let up = self.node(n).ancestors;
        let a = up[k];
        let new = crew.stepped(g, crew.tree.identity, i);
        self.lemma_ancestor(n, k);
        assert(crew.tree.node(n) == self.half_written(n, data, k, n));
        assert(crew.tree.node(n).ancestors == up);
        assert(crew.tree.node(a) == self.node(a)) by {
            if exists|j: int| 0 <= j < k && #[trigger] up[j] == a {
                let j = choose|j: int| 0 <= j < k && #[trigger] up[j] == a;
                self.lemma_ancestors_differ(n, j, k);
            }
        }
        assert(new.alone(i)) by {
            assert forall|j: int| new.employs(j) && j != i implies #[trigger] new.tasks[j]
                == TaskState::<T>::Idle by {
                assert(crew.tasks[j] == TaskState::<T>::Idle);
            }
        }
        assert forall|x: usize| self.has(x) implies #[trigger] new.tree.node(x)
            == self.half_written(n, data, k + 1, x) by {
            assert(crew.tree.node(x) == self.half_written(n, data, k, x));
            if x == a {
                assert(up[k] == x);
            }
            if exists|j: int| 0 <= j < k && #[trigger] up[j] == x {
                let j = choose|j: int| 0 <= j < k && #[trigger] up[j] == x;
                assert(up[j] == x && j < k + 1);
            }
        }
        assert(crew.after_steps(g, i, 1) == new) by {
            assert(new.after_steps(g, i, 0) == new);
        }
        if self.node(a).subtree_dirty || k + 1 == up.len() {
            assert forall|x: int| 0 <= x < self.nodes.len() implies #[trigger] new.tree.nodes[x]
                == self.written(n, data).nodes[x] by {
                let y = x as usize;
                assert(new.tree.node(y) == self.half_written(n, data, k + 1, y));
                assert(self.nodes[x] == self.node(y));
                if self.under(n, y) {
                    let j = up.index_of(y);
                    assert(up[j] == y);
                    if j > k {
                        self.lemma_ancestors_linked(n, a);
                        self.lemma_ancestor_chain(n, k, j);
                        self.lemma_flags_above(a, y);
                    }
                } else if y != n && exists|j: int| 0 <= j < k + 1 && #[trigger] up[j] == y {
                    let j = choose|j: int| 0 <= j < k + 1 && #[trigger] up[j] == y;
                    assert(up.contains(y));
                }
            }
            assert(new.tree =~= self.written(n, data));
            assert forall|j: int| new.employs(j) implies #[trigger] new.tasks[j]
                == TaskState::<T>::Idle by {}
            1
        } else {
            let steps = self.lemma_climb_ends(new, g, i, n, data, k + 1);
            crew.lemma_steps_on(g, i, 1, steps);
            1 + steps
        }
    }
}

// ---------------------------------------------------------------------------
// A probe
// ---------------------------------------------------------------------------

impl<T> TreeState<T> {
    /// A bound on the looks at what comes after the sons whose turn it is.
    spec fn ahead_rest(self, origin: usize, shelves: Seq<ShelfState<usize>>) -> nat
        decreases shelves.len(),
    {
        if shelves.len() == 0 {
            0
        } else {
            let last = shelves.last();
            self.ahead_rest(origin, shelves.drop_last()) + self.effort(
                ProbeState::spot(origin, shelves, shelves.len() - 1),
                last.sons.skip(last.at + 1),
            )
        }
    }

    /// A bound on the looks that a probe has left.
    spec fn looks_left(self, probe: ProbeState<usize>) -> nat {
        let len = probe.shelves.len();
        let last = probe.shelves.last();
        let (o, before) = (probe.origin, probe.shelves.drop_last());
        match probe.look {
            Look::Flag => {
                let n = probe.place(len as int);
                self.ahead_rest(o, probe.shelves) + self.effort(n, self.node(n).sons) + 2
            },
            Look::List => {
                let n = probe.place(len - 1);
                self.ahead_rest(o, before) + self.effort(n, self.node(n).sons) + 1
            },
            Look::Dirty => self.ahead_rest(o, before) + self.effort(
                probe.place(len - 1),
                last.sons.skip(last.at as int),
            ),
            Look::Done(pending) => 0,
        }
    }

    /// Past the son whose turn it was, at most what is ahead is left.
    proof fn lemma_passing_rest(self, origin: usize, shelves: Seq<ShelfState<usize>>)
        requires
            forall|k: int| 0 <= k < shelves.len() ==> (#[trigger] shelves[k]).busy(),
            self.stocked(origin, shelves),
        ensures
            self.looks_left(ProbeState::passing(origin, shelves)) <= self.ahead_rest(
                origin,
                shelves,
            ),
        decreases shelves.len(),
    {
        if shelves.len() > 0 {
            let last = shelves.len() - 1;
            let rest = shelves.drop_last();
            assert(shelves[last].busy());
            if shelves.last().moved().busy() {
                let whole = rest.push(shelves.last().moved());
                assert(whole.drop_last() =~= rest);
                assert(shelves[last].sons.len() <= usize::MAX);
                if last > 0 {
                    assert(whole[last - 1] == shelves[last - 1]);
                }
            } else {
                self.lemma_stocked_rest(origin, shelves);
                self.lemma_passing_rest(origin, rest);
            }
        }
    }

    /// Every look brings a probe nearer to its end.
    proof fn lemma_looks_fall(self, probe: ProbeState<usize>)
        requires
            self.shaped(),
            self.hosts(probe),
            !(probe.look is Done),
        ensures
            self.looks_left(self.looked(probe)) < self.looks_left(probe),
    {
        let len = probe.shelves.len();
        let last = len - 1;
        let new = self.looked(probe);
        match probe.look {
            Look::Flag => {
                let n = probe.place(len as int);
                if self.node(n).subtree_dirty {
                    assert(new.shelves.drop_last() =~= probe.shelves);
                    if len > 0 {
                        assert(new.shelves[last] == probe.shelves[last]);
                    }
                } else {
                    self.lemma_passing_rest(probe.origin, probe.shelves);
                }
            },
            Look::List => {
                let n = probe.place(last);
                let rest = probe.shelves.drop_last();
                let shelf = ShelfState { sons: self.node(n).sons, at: 0 };
                let whole = rest.push(shelf);
                assert(whole.drop_last() =~= rest);
                if last > 0 {
                    assert(whole[last - 1] == probe.shelves[last - 1]);
                }
                if shelf.busy() {
                    assert(shelf.sons.skip(0) =~= shelf.sons);
                } else {
                    self.lemma_stocked_rest(probe.origin, probe.shelves);
                    assert forall|k: int| 0 <= k < rest.len() implies (
                    #[trigger] rest[k]).busy() by {
                        assert(probe.shelves[k].busy());
                    }
                    self.lemma_passing_rest(probe.origin, rest);
                }
            },
            Look::Dirty => {
                let shelf = probe.shelves.last();
                let at = shelf.at as int;
                let s = probe.shelves[last].sons[at];
                let ahead = shelf.sons.skip(at);
                assert(self.has(s) && probe.place(last) < s);
                self.lemma_effort_first(probe.place(last), ahead);
                assert(ahead[0] == s);
                assert(ahead.skip(1) =~= shelf.sons.skip(at + 1));
            },
            Look::Done(pending) => {},
        }
    }

    /// The probe after `k` more looks at this tree.
    pub open spec fn looked_on(self, probe: ProbeState<usize>, k: nat) -> ProbeState<usize>
        decreases k,
    {
        if k == 0 {
            probe
        } else {
            self.looked_on(self.looked(probe), (k - 1) as nat)
        }
    }

    /// A probe of a tree that nobody changes comes to its end with its verdict.
    proof fn lemma_probe_ends(self, probe: ProbeState<usize>) -> (k: nat)
        requires
            self.shaped(),
            self.coherent(),
            self.hosts(probe),
        ensures
            self.looked_on(probe, k).look == Look::Done(self.verdict(probe)),
        decreases self.looks_left(probe),
    {
        if probe.look is Done {
            0
        } else {
            self.lemma_looks_fall(probe);
            self.law_a_probe_keeps_its_verdict(probe);
            let k = self.lemma_probe_ends(self.looked(probe));
            k + 1
        }
    }

    /// A probe of a quiet tree comes to its end, and says whether anything below
    /// its node is dirty.
    pub proof fn law_a_lone_probe_answers(self, n: usize)
        requires
            self.shaped(),
            self.coherent(),
            self.has(n),
        ensures
            exists|k: nat|
                (#[trigger] self.looked_on(ProbeState::begun(n), k)).look == Look::Done(
                    self.stirred(n),
                ),
    {
        self.law_a_probe_asks_whether_anything_is_pending(n);
        let k = self.lemma_probe_ends(ProbeState::begun(n));
        assert(self.looked_on(ProbeState::begun(n), k).look == Look::Done(self.stirred(n)));
    }
}

} // verus!
