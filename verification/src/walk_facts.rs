//! What a walk will see to, it still will after a step, until it has done so.
use vstd::prelude::*;

use crate::walk::Found;
use crate::walk::FrameState;
use crate::walk::Stage;
use crate::walk::WalkState;

verus! {

impl<T> WalkState<usize, T> {
    /// The frames above the innermost one keep their places and their turns.
    proof fn lemma_seeking_outer(self, top: FrameState<usize>, k: int)
        requires
            self.frames.len() > 0,
            0 <= k < self.frames.len() - 1,
        ensures
            k < self.seeking(top).frames.len(),
            self.seeking(top).frames[k] == self.frames[k],
            self.seeking(top).place(k) == self.place(k),
            self.seeking(top).first_unentered(k) == self.frames[k].at + 1,
            self.seeking(top).first_unchecked(k) == self.frames[k].at,
    {
        let new = self.seeking(top);
        assert(self.frames.drop_last().push(top).drop_last() =~= self.frames.drop_last());
        if k > 0 {
            assert(new.frames[k - 1] == self.frames[k - 1]);
        }
    }

    /// Sons whose turn has not come are still ahead.
    proof fn lemma_seeking_top(self, top: FrameState<usize>, j: int)
        requires
            self.frames.len() > 0,
            top.at <= j < top.sons.len(),
        ensures
            self.seeking(top).will_enter(self.place(self.frames.len() - 1), top.sons[j]),
            self.seeking(top).will_check(self.place(self.frames.len() - 1), top.sons[j]),
    {
        let new = self.seeking(top);
        let last = self.frames.len() - 1;
        assert(new.frames.len() == self.frames.len());
        assert(new.frames[last] == top);
        if last > 0 {
            assert(new.frames[last - 1] == self.frames[last - 1]);
        }
        assert(new.frames[last].sons[j] == top.sons[j]);
        assert(new.frame_will_enter(last, self.place(last), top.sons[j]));
        assert(new.frame_will_check(last, self.place(last), top.sons[j]));
    }

    /// What was folded into the innermost node is carried on.
    proof fn lemma_seeking_changed(self, top: FrameState<usize>)
        requires
            self.frames.len() > 0,
            top.changed,
        ensures
            self.seeking(top).will_deliver(self.place(self.frames.len() - 1)),
    {
        let new = self.seeking(top);
        let last = self.frames.len() - 1;
        let whole = self.frames.drop_last().push(top);
        assert(whole.drop_last() =~= self.frames.drop_last());
        if top.busy() || top.spent.len() > 0 {
            assert(new.frames[last] == top);
            if last > 0 {
                assert(new.frames[last - 1] == self.frames[last - 1]);
            }
            assert(new.frame_changed(last, self.place(last)));
        } else if last > 0 {
            assert(new.frames.last() == self.frames[last - 1]);
        }
    }

    /// The innermost frame after a step from a stage that deals with one son.
    pub open spec fn next_top(self, found: Found<usize, T>) -> FrameState<usize> {
        let top = self.top();
        if self.stage is List {
            FrameState { sons: found->Sons_0, ..top }
        } else if self.stage is Empty && found->Flag_0 {
            FrameState { spent: top.spent.push(top.at), at: (top.at + 1) as usize, ..top }
        } else {
            FrameState { at: (top.at + 1) as usize, ..top }
        }
    }

    /// The step moves on from the son whose turn it was, or from a list that was
    /// just read.
    pub open spec fn moves_on(self, found: Found<usize, T>) -> bool {
        match self.stage {
            Stage::List => true,
            Stage::Dead => !found->Flag_0,
            Stage::Handles => found->Count_0 != 0,
            Stage::Clean => found->Flag_0,
            Stage::Empty => true,
            _ => false,
        }
    }

    /// How a step that moves on is made.
    proof fn lemma_moves_on(self, found: Found<usize, T>)
        requires
            self.fits(),
            self.awaits(found),
            self.moves_on(found),
        ensures
            self.next(found) == self.seeking(self.next_top(found)),
            self.frames.len() > 0,
    {
    }

    /// A flag that the walk will come to stays ahead, until it is lowered.
    pub proof fn lemma_next_enters(self, found: Found<usize, T>, p: usize, c: usize)
        requires
            self.fits(),
            self.awaits(found),
            forall|k: int|
                0 <= k < self.frames.len() ==> (#[trigger] self.frames[k]).sons.len() <= usize::MAX,
            !(self.stage is Done),
            self.will_enter(p, c),
            self.stage is Enter ==> c != self.place(self.frames.len() as int),
            self.stage is List && self.place(self.frames.len() - 1) == p
                ==> found->Sons_0.contains(c),
        ensures
            self.next(found).will_enter(p, c),
    {
        let new = self.next(found);
        let last = self.frames.len() - 1;
        let k = choose|k: int| #[trigger] self.frame_will_enter(k, p, c);
        if self.moves_on(found) {
            self.lemma_moves_on(found);
            let top = self.next_top(found);
            if k < last {
                self.lemma_seeking_outer(top, k);
                assert(new.frame_will_enter(k, p, c));
            } else if self.stage is List {
                let j = found->Sons_0.index_of(c);
                assert(top.sons[j] == c);
                self.lemma_seeking_top(top, j);
            } else {
                let j = choose|j: int|
                    self.first_unentered(k) <= j < self.frames[k].sons.len()
                        && #[trigger] self.frames[k].sons[j] == c;
                assert(top.sons[j] == c);
                assert(top.at == self.top().at + 1);
                self.lemma_seeking_top(top, j);
            }
        } else if self.stage is Unlink {
            assert(k < last) by {
                if k == last {
                    assert(self.first_unentered(k) > self.frames[k].sons.len());
                }
            }
            if k > 0 {
                assert(new.frames[k - 1] == self.frames[k - 1]);
            }
            assert(new.frames[k] == self.frames[k]);
            assert(new.frame_will_enter(k, p, c));
        } else {
            if k > 0 {
                assert(new.frames[k - 1].at == self.frames[k - 1].at);
                assert(new.frames[k - 1].sons == self.frames[k - 1].sons);
            }
            assert(new.frames[k].sons == self.frames[k].sons);
            assert(new.frames[k].at == self.frames[k].at);
            if !self.listing(k) {
                let j = choose|j: int|
                    self.first_unentered(k) <= j < self.frames[k].sons.len()
                        && #[trigger] self.frames[k].sons[j] == c;
                assert(new.frames[k].sons[j] == c);
                assert(new.first_unentered(k) <= j);
            }
            assert(new.frame_will_enter(k, p, c));
        }
    }

    /// A dirty bit that the walk will come to stays ahead, until it is settled.
    pub proof fn lemma_next_checks(self, found: Found<usize, T>, p: usize, c: usize)
        requires
            self.fits(),
            self.awaits(found),
            forall|k: int|
                0 <= k < self.frames.len() ==> (#[trigger] self.frames[k]).sons.len() <= usize::MAX,
            !(self.stage is Done),
            self.will_check(p, c),
            self.stage is Take ==> c != self.top().current(),
            self.stage is Dirty && self.next(found).stage is Dead ==> c != self.top().current(),
            self.stage is List && self.place(self.frames.len() - 1) == p
                ==> found->Sons_0.contains(c),
        ensures
            self.next(found).will_check(p, c),
    {
        let new = self.next(found);
        let last = self.frames.len() - 1;
        let k = choose|k: int| #[trigger] self.frame_will_check(k, p, c);
        if self.moves_on(found) {
            self.lemma_moves_on(found);
            let top = self.next_top(found);
            if k < last {
                self.lemma_seeking_outer(top, k);
                assert(new.frame_will_check(k, p, c));
            } else if self.stage is List {
                let j = found->Sons_0.index_of(c);
                assert(top.sons[j] == c);
                self.lemma_seeking_top(top, j);
            } else {
                let j = choose|j: int|
                    self.first_unchecked(k) <= j < self.frames[k].sons.len()
                        && #[trigger] self.frames[k].sons[j] == c;
                assert(top.sons[j] == c);
                assert(top.at == self.top().at + 1);
                self.lemma_seeking_top(top, j);
            }
        } else if self.stage is Unlink {
            assert(k < last) by {
                if k == last {
                    assert(self.first_unchecked(k) >= self.frames[k].sons.len());
                }
            }
            if k > 0 {
                assert(new.frames[k - 1] == self.frames[k - 1]);
            }
            assert(new.frames[k] == self.frames[k]);
            assert(new.frame_will_check(k, p, c));
        } else {
            if k > 0 {
                assert(new.frames[k - 1].at == self.frames[k - 1].at);
                assert(new.frames[k - 1].sons == self.frames[k - 1].sons);
            }
            assert(new.frames[k].sons == self.frames[k].sons);
            assert(new.frames[k].at == self.frames[k].at);
            if !self.listing(k) {
                let j = choose|j: int|
                    self.first_unchecked(k) <= j < self.frames[k].sons.len()
                        && #[trigger] self.frames[k].sons[j] == c;
                assert(new.frames[k].sons[j] == c);
                assert(new.first_unchecked(k) <= j);
            }
            assert(new.frame_will_check(k, p, c));
        }
    }

    /// What the walk has to carry on it still has to, until it takes it.
    pub proof fn lemma_next_delivers(self, found: Found<usize, T>, c: usize)
        requires
            self.fits(),
            self.awaits(found),
            !(self.stage is Done),
            self.will_deliver(c),
            self.stage is Take ==> c != self.top().current(),
        ensures
            self.next(found).will_deliver(c),
    {
        let new = self.next(found);
        let last = self.frames.len() - 1;
        if exists|k: int| #[trigger] self.frame_changed(k, c) {
            let k = choose|k: int| #[trigger] self.frame_changed(k, c);
            if self.moves_on(found) {
                self.lemma_moves_on(found);
                let top = self.next_top(found);
                if k < last {
                    self.lemma_seeking_outer(top, k);
                    assert(new.frame_changed(k, c));
                } else {
                    self.lemma_seeking_changed(top);
                }
            } else if self.stage is Unlink {
                if k > 0 {
                    assert(k == last ==> new.frames.last() == self.frames[k - 1]);
                }
                if k < last {
                    if k > 0 {
                        assert(new.frames[k - 1] == self.frames[k - 1]);
                    }
                    assert(new.frames[k] == self.frames[k]);
                    assert(new.frame_changed(k, c));
                }
            } else {
                if k > 0 {
                    assert(new.frames[k - 1].at == self.frames[k - 1].at);
                    assert(new.frames[k - 1].sons == self.frames[k - 1].sons);
                }
                assert(new.frames[k].changed);
                assert(new.frame_changed(k, c));
            }
        }
    }

    /// A node whose flag was up when the walk lowered it gets its sons listed.
    pub proof fn lemma_entered(self, found: Found<usize, T>, c: usize)
        requires
            self.fits(),
            self.stage is Enter,
            found == Found::<usize, T>::Flag(true),
        ensures
            self.next(found).will_enter(self.place(self.frames.len() as int), c),
            self.next(found).will_check(self.place(self.frames.len() as int), c),
    {
        let new = self.next(found);
        let last = new.frames.len() - 1;
        if last > 0 {
            assert(new.frames[last - 1] == self.frames[last - 1]);
        }
        assert(new.frame_will_enter(last, new.place(last), c));
        assert(new.frame_will_check(last, new.place(last), c));
    }

    /// A node that something was folded into is carried on.
    pub proof fn lemma_folded_delivers(self, found: Found<usize, T>)
        requires
            self.fits(),
            self.stage is Fold,
        ensures
            self.next(found).will_deliver(self.place(self.frames.len() - 1)),
    {
        let new = self.next(found);
        let last = self.frames.len() - 1;
        if last > 0 {
            assert(new.frames[last - 1] == self.frames[last - 1]);
        }
        assert(new.frame_changed(last, self.place(last)));
    }
}

} // verus!
