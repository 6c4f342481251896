//! A walk that runs alone does what a sweep does.
use vstd::prelude::*;

use crate::state::lemma_filter_agrees;
use crate::state::lemma_filter_keeps_all;
use crate::state::NodeState;
use crate::state::TreeState;
use crate::walk::picked;
use crate::walk::FrameState;
use crate::walk::Stage;
use crate::walk::WalkState;

verus! {

// ---------------------------------------------------------------------------
// Many touches of one walk
// ---------------------------------------------------------------------------

impl<T> TreeState<T> {
    /// The tree and the walk after `k` touches of the walk, with nobody else at work.
    /// A walk at its end touches nothing more.
    pub open spec fn strode(
        self,
        g: spec_fn(T, T) -> T,
        walk: WalkState<usize, T>,
        k: nat,
    ) -> (Self, WalkState<usize, T>)
        decreases k,
    {
        if k == 0 || walk.stage is Done {
            (self, walk)
        } else {
            let (tree, found) = self.touched(g, self.identity, walk.deed());
            tree.strode(g, walk.next(found), (k - 1) as nat)
        }
    }

    /// The walk comes to `next`, and makes `new` of the tree on its way.
    pub open spec fn leads(
        self,
        g: spec_fn(T, T) -> T,
        walk: WalkState<usize, T>,
        new: Self,
        next: WalkState<usize, T>,
    ) -> bool {
        exists|k: nat| #[trigger] self.strode(g, walk, k) == (new, next)
    }

    proof fn lemma_strode_on(
        self,
        g: spec_fn(T, T) -> T,
        walk: WalkState<usize, T>,
        j: nat,
        k: nat,
    )
        ensures
            ({
                let (tree, next) = self.strode(g, walk, j);
                tree.strode(g, next, k) == self.strode(g, walk, j + k)
            }),
        decreases j,
    {
        if j > 0 && !(walk.stage is Done) {
            let (tree, found) = self.touched(g, self.identity, walk.deed());
            tree.lemma_strode_on(g, walk.next(found), (j - 1) as nat, k);
        }
    }

    /// One way on from the end of another.
    proof fn lemma_leads_on(
        self,
        g: spec_fn(T, T) -> T,
        walk: WalkState<usize, T>,
        mid: Self,
        between: WalkState<usize, T>,
        new: Self,
        next: WalkState<usize, T>,
    )
        requires
            self.leads(g, walk, mid, between),
            mid.leads(g, between, new, next),
        ensures
            self.leads(g, walk, new, next),
    {
        let j = choose|j: nat| #[trigger] self.strode(g, walk, j) == (mid, between);
        let k = choose|k: nat| #[trigger] mid.strode(g, between, k) == (new, next);
        self.lemma_strode_on(g, walk, j, k);
        assert(self.strode(g, walk, j + k) == (new, next));
    }

    /// One touch.
    proof fn lemma_leads_once(self, g: spec_fn(T, T) -> T, walk: WalkState<usize, T>)
        requires
            !(walk.stage is Done),
        ensures
            ({
                let (new, found) = self.touched(g, self.identity, walk.deed());
                self.leads(g, walk, new, walk.next(found))
            }),
    {
        let (new, found) = self.touched(g, self.identity, walk.deed());
        assert(new.strode(g, walk.next(found), 0) == (new, walk.next(found)));
        assert(self.strode(g, walk, 1) == (new, walk.next(found)));
    }

    /// A touch, and the way on from there.
    proof fn lemma_leads_step(
        self,
        g: spec_fn(T, T) -> T,
        walk: WalkState<usize, T>,
        mid: Self,
        between: WalkState<usize, T>,
        new: Self,
        next: WalkState<usize, T>,
    )
        requires
            !(walk.stage is Done),
            ({
                let (tree, found) = self.touched(g, self.identity, walk.deed());
                tree == mid && walk.next(found) == between
            }),
            mid.leads(g, between, new, next),
        ensures
            self.leads(g, walk, new, next),
    {
        self.lemma_leads_once(g, walk);
        self.lemma_leads_on(g, walk, mid, between, new, next);
    }

    /// No touch at all.
    proof fn lemma_leads_nowhere(self, g: spec_fn(T, T) -> T, walk: WalkState<usize, T>)
        ensures
            self.leads(g, walk, self, walk),
    {
        assert(self.strode(g, walk, 0) == (self, walk));
    }

    /// The looks at a son that was seen to: it is put on the list of the spent
    /// exactly when it is spent.
    proof fn lemma_leads_past(self, g: spec_fn(T, T) -> T, walk: WalkState<usize, T>)
        requires
            walk.stage is Dead,
            walk.frames.len() > 0,
            walk.top().busy(),
        ensures
            ({
                let top = walk.top();
                self.leads(
                    g,
                    walk,
                    self,
                    walk.past(
                        if self.spent(top.current()) {
                            FrameState { spent: top.spent.push(top.at), ..top }
                        } else {
                            top
                        },
                    ),
                )
            }),
    {
        let top = walk.top();
        let s = self.node(top.current());
        let handles = WalkState { stage: Stage::Handles, ..walk };
        let clean = WalkState { stage: Stage::Clean, ..walk };
        let empty = WalkState { stage: Stage::Empty, ..walk };
        let next = walk.past(
            if self.spent(top.current()) {
                FrameState { spent: top.spent.push(top.at), ..top }
            } else {
                top
            },
        );
        self.lemma_leads_nowhere(g, next);
        if s.dead {
            if s.handles == 0 {
                if !s.dirty {
                    self.lemma_leads_step(g, empty, self, next, self, next);
                    self.lemma_leads_step(g, clean, self, empty, self, next);
                } else {
                    self.lemma_leads_step(g, clean, self, next, self, next);
                }
                self.lemma_leads_step(g, handles, self, clean, self, next);
            } else {
                self.lemma_leads_step(g, handles, self, next, self, next);
            }
            self.lemma_leads_step(g, walk, self, handles, self, next);
        } else {
            self.lemma_leads_step(g, walk, self, next, self, next);
        }
    }
}

// ---------------------------------------------------------------------------
// A whole sweep
// ---------------------------------------------------------------------------

impl<T> WalkState<usize, T> {
    /// The walk one node further in.
    spec fn inside(self, frame: FrameState<usize>, stage: Stage<T>) -> Self {
        WalkState { frames: self.frames.push(frame), stage, ..self }
    }

    /// The walk out of the node that it was about to enter.
    pub open spec fn arrived(self, changed: bool) -> Self {
        WalkState {
            stage: if self.frames.len() == 0 {
                Stage::Done(changed)
            } else {
                Stage::Dirty(changed)
            },
            ..self
        }
    }

    proof fn lemma_inside(self, frame: FrameState<usize>, stage: Stage<T>, other: FrameState<usize>)
        ensures
            self.inside(frame, stage).top() == frame,
            self.inside(frame, stage).frames.len() == self.frames.len() + 1,
            self.inside(frame, stage).place(self.frames.len() as int) == self.place(
                self.frames.len() as int,
            ),
            frame.busy() ==> self.inside(frame, stage).place(self.frames.len() as int + 1)
                == frame.current(),
            other.busy() ==> self.inside(frame, stage).seeking(other) == self.inside(
                other,
                Stage::Enter,
            ),
            !other.busy() && other.spent.len() > 0 ==> self.inside(frame, stage).seeking(other)
                == self.inside(other, Stage::Unlink),
            !other.busy() && other.spent.len() == 0 ==> self.inside(frame, stage).seeking(other)
                == self.arrived(other.changed),
            self.inside(frame, stage).left() == self.arrived(frame.changed),
    {
        let whole = self.inside(frame, stage);
        assert(whole.frames.drop_last() =~= self.frames);
        assert(self.frames.push(other).drop_last() =~= self.frames);
        if self.frames.len() > 0 {
            assert(whole.frames[self.frames.len() - 1] == self.frames[self.frames.len() - 1]);
        }
    }
}

impl<T: Clone> TreeState<T> {
    /// From the flag of a node, a walk comes out of the node again, having swept it.
    proof fn lemma_walk_sweeps(self, g: spec_fn(T, T) -> T, walk: WalkState<usize, T>) -> (new:
        Self)
        requires
            self.shaped(),
            self.has(walk.place(walk.frames.len() as int)),
            self.coherent_below(walk.place(walk.frames.len() as int)),
            walk.stage is Enter,
        ensures
            ({
                let n = walk.place(walk.frames.len() as int);
                &&& self.leads(g, walk, new, walk.arrived(self.stirred(n)))
                &&& self.swept(new, n)
                &&& new.shaped()
                &&& new.node(n).data == self.folded(g, n)
            }),
        decreases
                self.nodes.len() - walk.place(walk.frames.len() as int),
                self.node(walk.place(walk.frames.len() as int)).sons.len() + 1,
    {
        let n = walk.place(walk.frames.len() as int);
        let cur = self.with(n, (NodeState { subtree_dirty: false, ..self.node(n) }));
        let opened = FrameState::<usize>::opened();
        if !self.node(n).subtree_dirty {
            self.lemma_sweep_of_nothing(n);
            self.lemma_folded_still(g, n, self.node(n).sons.len());
            assert(cur =~= self);
            self.lemma_leads_nowhere(g, walk.arrived(false));
            self.lemma_leads_step(
                g,
                walk,
                self,
                walk.arrived(false),
                self,
                walk.arrived(false),
            );
            self
        } else {
            let frame = FrameState { sons: self.node(n).sons, ..opened };
            walk.lemma_inside(opened, Stage::List, frame);
            let inner = walk.inside(opened, Stage::List);
            self.lemma_sweep_begun(n);
            let new = self.lemma_sons_swept(g, walk, cur, 0, frame);
            let next = walk.arrived(self.stirred(n));
            assert(cur.node(n).sons == self.node(n).sons);
            cur.lemma_leads_step(g, inner, cur, inner.seeking(frame), new, next);
            self.lemma_leads_step(g, walk, cur, inner, new, next);
            new
        }
    }

    /// With its flag down and nothing else done, the sweep of a node has begun.
    proof fn lemma_sweep_begun(self, n: usize)
        requires
            self.shaped(),
            self.has(n),
        ensures
            self.swept_upto(
                self.with(n, (NodeState { subtree_dirty: false, ..self.node(n) })),
                n,
                0,
            ),
    {
        let cur = self.with(n, (NodeState { subtree_dirty: false, ..self.node(n) }));
        assert forall|x: usize| self.has(x) && x != n implies #[trigger] cur.node(x) == self.node(
            x,
        ) by {}
    }

    /// From the turn of son `i`, a walk comes out of the node, having swept the rest.
    proof fn lemma_sons_swept(
        self,
        g: spec_fn(T, T) -> T,
        walk: WalkState<usize, T>,
        cur: Self,
        i: int,
        frame: FrameState<usize>,
    ) -> (new: Self)
        requires
            self.shaped(),
            self.has(walk.place(walk.frames.len() as int)),
            self.coherent_below(walk.place(walk.frames.len() as int)),
            self.node(walk.place(walk.frames.len() as int)).subtree_dirty,
            walk.stage is Enter,
            frame.sons == self.node(walk.place(walk.frames.len() as int)).sons,
            0 <= i <= frame.sons.len(),
            frame.at == i,
            self.swept_upto(cur, walk.place(walk.frames.len() as int), i),
            frame.changed == exists|j: int| 0 <= j < i && #[trigger] self.pending(frame.sons[j]),
            forall|p: int|
                0 <= p < frame.spent.len() ==> (#[trigger] frame.spent[p]) < i && cur.spent(
                    frame.sons[frame.spent[p] as int],
                ),
            forall|j: int|
                0 <= j < i && cur.spent(#[trigger] frame.sons[j]) ==> frame.spent.contains(
                    j as usize,
                ),
            cur.node(walk.place(walk.frames.len() as int)).data == self.folded_upto(
                g,
                walk.place(walk.frames.len() as int),
                i as nat,
            ),
        ensures
            ({
                let n = walk.place(walk.frames.len() as int);
                &&& cur.leads(
                    g,
                    walk.inside(FrameState::opened(), Stage::List).seeking(frame),
                    new,
                    walk.arrived(self.stirred(n)),
                )
                &&& self.swept(new, n)
                &&& new.shaped()
                &&& new.node(n).data == self.folded(g, n)
            }),
        decreases
                self.nodes.len() - walk.place(walk.frames.len() as int),
                self.node(walk.place(walk.frames.len() as int)).sons.len() - i,
    {
        let n = walk.place(walk.frames.len() as int);
        let sons = frame.sons;
        let e = self.identity;
        let opened = FrameState::<usize>::opened();
        let here = walk.inside(opened, Stage::List).seeking(frame);
        walk.lemma_inside(opened, Stage::List, frame);
        self.lemma_few_sons(n);
        self.lemma_swept_upto_shaped(cur, n, i);
        if i < sons.len() {
            let s = sons[i];
            self.lemma_son(n, i);
            self.lemma_next_son_untouched(cur, n, i);
            self.lemma_next_son_coherent(cur, n, i);
            self.lemma_same_pending(cur, s);
            self.lemma_same_folded(cur, g, s, self.node(s).sons.len());
            assert(cur.node(s) == self.node(s));
            walk.lemma_inside(frame, Stage::Enter, frame);
            assert(here == walk.inside(frame, Stage::Enter));
            let stirred = cur.stirred(s);
            let mid = cur.lemma_walk_sweeps(g, here);
            let back = walk.inside(frame, Stage::Dirty(stirred));
            assert(here.arrived(stirred) == back);
            self.lemma_same_under(cur, n, s);
            if self.under(n, s) {
                self.lemma_under_is_younger(n, s);
            }
            assert(mid.node(n) == cur.node(n));
            walk.lemma_inside(frame, Stage::Dirty(stirred), frame);
            let takes = mid.node(s).dirty || stirred;
            assert(takes == self.pending(s));
            let delta = mid.node(s).data;
            let taken = mid.with(s, (NodeState { data: e, dirty: false, ..mid.node(s) }));
            let folded = taken.with(
                n,
                (NodeState { data: g(taken.node(n).data, delta), ..taken.node(n) }),
            );
            let after = if takes {
                folded
            } else {
                mid
            };
            let kept = if takes {
                FrameState { changed: true, ..frame }
            } else {
                frame
            };
            let settled = walk.inside(kept, Stage::Dead);
            let at_take = walk.inside(frame, Stage::Take);
            let at_fold = walk.inside(frame, Stage::Fold(delta));
            walk.lemma_inside(kept, Stage::Dead, kept);
            // from the flag to the looks at the son that was seen to
            assert(mid.leads(g, back, after, settled)) by {
                after.lemma_leads_nowhere(g, settled);
                if takes {
                    walk.lemma_inside(frame, Stage::Take, frame);
                    walk.lemma_inside(frame, Stage::Fold(delta), frame);
                    assert(at_fold.with_top(kept, Stage::Dead) == settled) by {
                        assert(at_fold.frames.drop_last() =~= walk.frames);
                    }
                    taken.lemma_leads_step(g, at_fold, folded, settled, folded, settled);
                    mid.lemma_leads_step(g, at_take, taken, at_fold, folded, settled);
                    mid.lemma_leads_step(g, back, mid, at_take, folded, settled);
                } else {
                    mid.lemma_leads_step(g, back, mid, settled, mid, settled);
                }
            }
            let marked = if after.spent(s) {
                FrameState { spent: frame.spent.push(frame.at), ..kept }
            } else {
                kept
            };
            let next = FrameState { at: (i + 1) as usize, ..marked };
            walk.lemma_inside(kept, Stage::Dead, next);
            walk.lemma_inside(opened, Stage::List, next);
            after.lemma_leads_past(g, settled);
            let on = walk.inside(opened, Stage::List).seeking(next);
            assert(settled.past(marked) == on);
            assert(after.node(s).data == if takes {
                e
            } else {
                self.node(s).data
            }) by {
                if !takes {
                    cur.lemma_folded_still(g, s, cur.node(s).sons.len());
                }
            }
            self.lemma_sweep_one_more(cur, mid, after, n, i);
            self.lemma_son_settled(g, cur, mid, after, n, i, frame, next);
            let new = self.lemma_sons_swept(g, walk, after, i + 1, next);
            let end = walk.arrived(self.stirred(n));
            after.lemma_leads_on(g, settled, after, on, new, end);
            mid.lemma_leads_on(g, back, after, settled, new, end);
            cur.lemma_leads_on(g, here, mid, back, new, end);
            new
        } else {
            self.lemma_stirred_by_sons(n);
            let end = walk.arrived(frame.changed);
            let places = picked(sons, frame.spent);
            assert forall|j: int| 0 <= j < sons.len() implies cur.spent(#[trigger] sons[j]) == (
            places.contains(sons[j]) && cur.node(sons[j]).handles == 0 && !cur.node(
                sons[j],
            ).dirty) by {
                if cur.spent(sons[j]) {
                    let p = frame.spent.index_of(j as usize);
                    assert(places[p] == sons[j]);
                }
                if places.contains(sons[j]) {
                    let p = places.index_of(sons[j]);
                    assert(cur.spent(sons[frame.spent[p] as int]));
                }
            }
            lemma_filter_agrees(
                sons,
                |s: usize| !cur.spent(s),
                |s: usize|
                    !(places.contains(s) && cur.node(s).handles == 0 && !cur.node(s).dirty),
            );
            if frame.spent.len() > 0 {
                let new = cur.reaped(n, places);
                walk.lemma_inside(frame, Stage::Unlink, frame);
                assert(here == walk.inside(frame, Stage::Unlink));
                new.lemma_leads_nowhere(g, end);
                cur.lemma_leads_step(g, here, new, end, new, end);
                assert forall|x: usize| cur.has(x) && x != n implies #[trigger] new.node(x)
                    == cur.node(x) by {}
                self.lemma_sweep_done(cur, new, n);
                new
            } else {
                assert forall|j: int| 0 <= j < sons.len() implies !cur.spent(
                    #[trigger] sons[j],
                ) by {}
                lemma_filter_keeps_all(sons, |s: usize| !cur.spent(s));
                cur.lemma_leads_nowhere(g, end);
                self.lemma_sweep_done(cur, cur, n);
                cur
            }
        }
    }

    /// What is known of the sons seen to so far is known of one more.
    proof fn lemma_son_settled(
        self,
        g: spec_fn(T, T) -> T,
        cur: Self,
        mid: Self,
        after: Self,
        n: usize,
        i: int,
        frame: FrameState<usize>,
        next: FrameState<usize>,
    )
        requires
            self.shaped(),
            self.has(n),
            frame.sons == self.node(n).sons,
            0 <= i < frame.sons.len() <= usize::MAX,
            frame.at == i,
            self.swept_upto(cur, n, i),
            cur.swept(mid, frame.sons[i]),
            forall|x: usize|
                mid.has(x) && x != n && x != frame.sons[i] ==> #[trigger] after.node(x)
                    == mid.node(x),
            next == (FrameState {
                at: (i + 1) as usize,
                changed: frame.changed || self.pending(frame.sons[i]),
                spent: if after.spent(frame.sons[i]) {
                    frame.spent.push(frame.at)
                } else {
                    frame.spent
                },
                ..frame
            }),
            frame.changed == exists|j: int| 0 <= j < i && #[trigger] self.pending(frame.sons[j]),
            forall|p: int|
                0 <= p < frame.spent.len() ==> (#[trigger] frame.spent[p]) < i && cur.spent(
                    frame.sons[frame.spent[p] as int],
                ),
            forall|j: int|
                0 <= j < i && cur.spent(#[trigger] frame.sons[j]) ==> frame.spent.contains(
                    j as usize,
                ),
        ensures
            next.changed == exists|j: int|
                0 <= j < i + 1 && #[trigger] self.pending(next.sons[j]),
            forall|p: int|
                0 <= p < next.spent.len() ==> (#[trigger] next.spent[p]) < i + 1 && after.spent(
                    next.sons[next.spent[p] as int],
                ),
            forall|j: int|
                0 <= j < i + 1 && after.spent(#[trigger] next.sons[j]) ==> next.spent.contains(
                    j as usize,
                ),
    {
        let sons = frame.sons;
        let s = sons[i];
        self.lemma_son(n, i);
        assert(next.changed == exists|j: int|
            0 <= j < i + 1 && #[trigger] self.pending(next.sons[j])) by {
            if self.pending(s) {
                assert(self.pending(next.sons[i]));
            }
            if frame.changed {
                let j = choose|j: int| 0 <= j < i && #[trigger] self.pending(frame.sons[j]);
                assert(self.pending(next.sons[j]));
            }
        }
        assert forall|j: int| 0 <= j < i implies after.node(#[trigger] sons[j]) == cur.node(
            sons[j],
        ) by {
            let t = sons[j];
            self.lemma_son(n, j);
            assert(self.lists_its_own(n));
            self.lemma_same_under(cur, t, s);
            if self.within(t, s) {
                self.lemma_branches_part(t, n, s, t);
            }
            assert(mid.node(t) == cur.node(t));
        }
        assert forall|j: int| 0 <= j < i + 1 && after.spent(#[trigger] next.sons[j]) implies
            next.spent.contains(j as usize) by {
            if j < i {
                assert(after.node(sons[j]) == cur.node(sons[j]));
                assert(cur.spent(frame.sons[j]));
                let p = frame.spent.index_of(j as usize);
                assert(next.spent[p] == j);
            } else {
                assert(next.spent[frame.spent.len() as int] == i);
            }
        }
        assert forall|p: int| 0 <= p < next.spent.len() implies (#[trigger] next.spent[p]) < i + 1
            && after.spent(next.sons[next.spent[p] as int]) by {
            if p < frame.spent.len() {
                let j = frame.spent[p] as int;
                assert(next.spent[p] == frame.spent[p]);
                assert(after.node(sons[j]) == cur.node(sons[j]));
            }
        }
    }
}

impl<T: Clone> TreeState<T> {
    /// A walk that nobody disturbs does what a sweep does: it comes to its end, with
    /// everything below its node folded into the node, deepest first, and with
    /// everything unlinked that was spent by then.
    pub proof fn law_a_walk_alone_is_a_sweep(self, g: spec_fn(T, T) -> T, n: usize)
        requires
            self.shaped(),
            self.coherent(),
            self.has(n),
        ensures
            exists|k: nat|
                {
                    let (new, walk) = #[trigger] self.strode(g, WalkState::begun(n), k);
                    &&& walk.stage == Stage::<T>::Done(self.stirred(n))
                    &&& walk.origin == n
                    &&& self.swept(new, n)
                    &&& new.node(n).data == self.folded(g, n)
                },
    {
        if n != 0 {
            self.lemma_under_root(n);
            self.lemma_coherent_branch(0, n);
        }
        let walk = WalkState::<usize, T>::begun(n);
        let new = self.lemma_walk_sweeps(g, walk);
        let k = choose|k: nat| #[trigger]
            self.strode(g, walk, k) == (new, walk.arrived(self.stirred(n)));
        assert(self.strode(g, walk, k).1.stage == Stage::<T>::Done(self.stirred(n)));
    }
}

} // verus!
