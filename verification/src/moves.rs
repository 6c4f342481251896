//! What a walk or a probe does next, whatever it finds.
//!
//! These hold of every walk, over any kind of shared memory, whatever other threads make
//! it find.
use vstd::prelude::*;

use crate::probe::Look;
use crate::probe::ProbeState;
use crate::probe::ShelfState;
use crate::walk::Deed;
use crate::walk::Found;
use crate::walk::Stage;
use crate::walk::WalkState;

verus! {

impl<R, T> WalkState<R, T> {
    /// A walk touches the son whose turn it is, or the node that it is inside of, and
    /// nothing else. It folds into the node it is inside of, lists and thins the sons of
    /// that node, and looks at the son for everything else.
    pub proof fn law_a_walk_stays_where_it_is(self)
        requires
            self.fits(),
        ensures
            ({
                let len = self.frames.len();
                let son = if len == 0 {
                    self.origin
                } else {
                    self.frames[len - 1].sons[self.frames[len - 1].at as int]
                };
                let father = if len <= 1 {
                    self.origin
                } else {
                    self.frames[len - 2].sons[self.frames[len - 2].at as int]
                };
                match self.deed() {
                    Deed::Lower(n) => self.stage is Enter && n == son,
                    Deed::List(n) => self.stage is List && n == father,
                    Deed::LoadDirty(n) => (self.stage is Dirty || self.stage is Clean) && n == son,
                    Deed::Take(n) => self.stage is Take && n == son,
                    Deed::Fold(n, delta) => self.stage == Stage::Fold(delta) && n == father,
                    Deed::LoadDead(n) => self.stage is Dead && n == son,
                    Deed::LoadHandles(n) => self.stage is Handles && n == son,
                    Deed::IsEmpty(n) => self.stage is Empty && n == son,
                    Deed::Unlink(n, marked) => {
                        let top = self.frames[len - 1];
                        &&& self.stage is Unlink
                        &&& n == father
                        &&& marked.len() == top.spent.len()
                        &&& forall|i: int|
                            0 <= i < marked.len() ==> #[trigger] marked[i]
                                == top.sons[top.spent[i] as int]
                    },
                    Deed::Finish(changed) => self.stage == Stage::<T>::Done(changed),
                }
            }),
    {
    }

    /// A walk that is begun is inside of nothing, and its first touch is to lower the flag
    /// of the node that it is for.
    pub proof fn law_a_walk_begins_at_its_node(origin: R)
        ensures
            Self::begun(origin).origin == origin,
            Self::begun(origin).frames.len() == 0,
            Self::begun(origin).stage is Enter,
            Self::begun(origin).deed() == Deed::<R, T>::Lower(origin),
    {
    }

    /// A walk never changes the node that it is for. Every step leaves the frames of the
    /// outer nodes as they are, goes in by one node or out by one, or stays.
    pub proof fn law_a_walk_goes_one_node_at_a_time(self, found: Found<R, T>, k: int)
        requires
            self.fits(),
            self.awaits(found),
        ensures
            self.next(found).origin == self.origin,
            self.next(found).frames.len() <= self.frames.len() + 1,
            self.frames.len() <= self.next(found).frames.len() + 1,
            0 <= k < self.frames.len() - 1 ==> self.next(found).frames[k] == self.frames[k],
    {
    }

    /// A node is gone into where its flag was up, and only there. Where it was down, and
    /// nothing is left of the way in, the walk is over.
    pub proof fn law_a_walk_goes_in_where_a_flag_was_up(self, up: bool)
        requires
            self.fits(),
            self.stage is Enter,
        ensures
            ({
                let len = self.frames.len();
                let new = self.next(Found::Flag(up));
                &&& up ==> {
                    &&& new.frames.len() == len + 1
                    &&& new.frames.drop_last() == self.frames
                    &&& new.frames[len as int].sons.len() == 0
                    &&& new.frames[len as int].at == 0
                    &&& new.frames[len as int].spent.len() == 0
                    &&& !new.frames[len as int].changed
                    &&& new.stage is List
                }
                &&& !up ==> new.frames == self.frames
                &&& !up && len == 0 ==> new.stage == Stage::<T>::Done(false)
                &&& !up && len > 0 ==> new.stage == Stage::<T>::Dirty(false)
            }),
    {
        assert(self.next(Found::Flag(true)).frames.drop_last() =~= self.frames);
    }

    /// The sons get their turn in the order that they were listed in, the first one
    /// first. Where there are none, the walk is out of the node again, which has not
    /// changed.
    pub proof fn law_the_first_son_listed_comes_first(self, sons: Seq<R>)
        requires
            self.fits(),
            self.stage is List,
        ensures
            ({
                let last = self.frames.len() - 1;
                let new = self.next(Found::Sons(sons));
                &&& sons.len() > 0 ==> {
                    &&& new.frames.len() == self.frames.len()
                    &&& new.frames[last].sons == sons
                    &&& new.frames[last].at == 0
                    &&& new.frames[last].spent.len() == 0
                    &&& !new.frames[last].changed
                    &&& new.stage is Enter
                }
                &&& sons.len() == 0 ==> new.frames == self.frames.drop_last()
                &&& sons.len() == 0 && last == 0 ==> new.stage == Stage::<T>::Done(false)
                &&& sons.len() == 0 && last > 0 ==> new.stage == Stage::<T>::Dirty(false)
            }),
    {
        let new = self.next(Found::Sons(sons));
        if sons.len() == 0 {
            assert(new.frames =~= self.frames.drop_last());
        }
    }

    /// The delta of a son is taken if the son is dirty, or something was folded into it
    /// on the way, and otherwise it is left alone. What was taken is in hand until it is
    /// folded, as it is, and the node it was folded into has changed from then on.
    pub proof fn law_what_is_taken_is_folded(self, dirty: bool, delta: T)
        requires
            self.fits(),
        ensures
            self.stage matches Stage::Dirty(changed) ==> {
                let new = self.next(Found::Flag(dirty));
                &&& new.frames == self.frames
                &&& dirty || changed ==> new.stage is Take
                &&& !dirty && !changed ==> new.stage is Dead
            },
            self.stage is Take ==> {
                let new = self.next(Found::Delta(delta));
                new.frames == self.frames && new.stage == Stage::Fold(delta)
            },
            self.stage is Fold ==> {
                let last = self.frames.len() - 1;
                let new = self.next(Found::Ack);
                &&& new.stage is Dead
                &&& new.frames.len() == self.frames.len()
                &&& new.frames[last].changed
                &&& new.frames[last].sons == self.frames[last].sons
                &&& new.frames[last].at == self.frames[last].at
                &&& new.frames[last].spent == self.frames[last].spent
            },
    {
    }

    /// A son is noted as spent if it is dead, has no handles, is not dirty and has no
    /// sons, found in that order, each one only where the one before held. Found otherwise
    /// at any point, it is passed by, and either way it is the turn of the next son, once
    /// and for all. After the last one the spent ones are unlinked, if there are any, and
    /// the walk is out of the node.
    pub proof fn law_a_son_is_settled_once(self, found: Found<R, T>)
        requires
            self.fits(),
            self.awaits(found),
            self.stage is Dead || self.stage is Handles || self.stage is Clean || self.stage
                is Empty,
        ensures
            ({
                let last = self.frames.len() - 1;
                let top = self.frames[last];
                let new = self.next(found);
                let holds = match self.stage {
                    Stage::Dead => found == Found::<R, T>::Flag(true),
                    Stage::Handles => found == Found::<R, T>::Count(0),
                    Stage::Clean => found == Found::<R, T>::Flag(false),
                    _ => found == Found::<R, T>::Flag(true),
                };
                let spent = if self.stage is Empty && holds {
                    top.spent.push(top.at)
                } else {
                    top.spent
                };
                &&& !(self.stage is Empty) && holds ==> {
                    &&& new.frames == self.frames
                    &&& self.stage is Dead ==> new.stage is Handles
                    &&& self.stage is Handles ==> new.stage is Clean
                    &&& self.stage is Clean ==> new.stage is Empty
                }
                &&& self.stage is Empty || !holds ==> {
                    let left = top.at + 1 == top.sons.len() && spent.len() == 0;
                    &&& !left ==> {
                        &&& new.frames.len() == self.frames.len()
                        &&& top.sons.len() <= usize::MAX ==> new.frames[last].at == top.at + 1
                        &&& new.frames[last].sons == top.sons
                        &&& new.frames[last].spent == spent
                        &&& new.frames[last].changed == top.changed
                        &&& top.at + 1 < top.sons.len() <= usize::MAX ==> new.stage is Enter
                        &&& top.at + 1 == top.sons.len() <= usize::MAX ==> new.stage is Unlink
                    }
                    &&& left && top.sons.len() <= usize::MAX ==> {
                        &&& new.frames == self.frames.drop_last()
                        &&& new.stage == if last == 0 {
                            Stage::<T>::Done(top.changed)
                        } else {
                            Stage::<T>::Dirty(top.changed)
                        }
                    }
                }
            }),
    {
        assert(self.next(found).frames.drop_last() =~= self.frames.drop_last()
            || self.next(found).frames =~= self.frames.drop_last());
    }

    /// A walk leaves a node with what it folded into it: the father is told whether the
    /// node changed, or the walk is over and says so.
    pub proof fn law_a_walk_leaves_with_what_it_did(self)
        requires
            self.fits(),
            self.stage is Unlink || self.stage is Done,
        ensures
            self.stage is Done ==> self.next(Found::Ack) == self,
            self.stage is Unlink ==> {
                let last = self.frames.len() - 1;
                let new = self.next(Found::Ack);
                &&& new.frames == self.frames.drop_last()
                &&& new.stage == if last == 0 {
                    Stage::<T>::Done(self.frames[last].changed)
                } else {
                    Stage::<T>::Dirty(self.frames[last].changed)
                }
            },
    {
    }
}

impl<R> ProbeState<R> {
    /// A probe begins with the flag of its node and has looked at nothing. It says that
    /// something is pending at the first dirty bit that it finds up, and at none other; a
    /// dirty bit that is down leads to the flag of the same node, and a flag that is up to
    /// its sons.
    pub proof fn law_a_probe_stops_at_the_first_dirty_bit(self, origin: R)
        ensures
            Self::begun(origin).origin == origin,
            Self::begun(origin).shelves.len() == 0,
            Self::begun(origin).look is Flag,
            self.look is Dirty ==> {
                &&& self.after_bit(true).look == Look::Done(true)
                &&& self.after_bit(false).look is Flag
                &&& self.after_bit(false).shelves == self.shelves
                &&& self.after_bit(false).origin == self.origin
            },
            self.look is Flag ==> {
                let len = self.shelves.len();
                &&& self.after_bit(true).look is List
                &&& self.after_bit(true).shelves.len() == len + 1
                &&& self.after_bit(true).shelves.drop_last() == self.shelves
                &&& self.after_bit(true).origin == self.origin
                &&& self.after_bit(false).look != Look::Done(true)
            },
    {
        if self.look is Flag {
            assert(self.after_bit(true).shelves.drop_last() =~= self.shelves);
            Self::lemma_passing_finds_nothing(self.origin, self.shelves);
        }
    }

    /// Past a clear flag, it is the turn of the next son of the innermost node that has
    /// one left, and of its dirty bit. Where no node has one left, nothing is pending.
    pub proof fn law_a_clear_flag_leads_on(self, k: int)
        requires
            self.fits(),
            self.look is Flag,
            -1 <= k < self.shelves.len(),
            forall|j: int|
                k < j < self.shelves.len() ==> (#[trigger] self.shelves[j]).at + 1
                    == self.shelves[j].sons.len() <= usize::MAX,
            0 <= k ==> self.shelves[k].at + 1 < self.shelves[k].sons.len() <= usize::MAX,
        ensures
            k == -1 ==> self.after_bit(false).look == Look::Done(false),
            0 <= k ==> {
                let new = self.after_bit(false);
                &&& new.origin == self.origin
                &&& new.look is Dirty
                &&& new.shelves.len() == k + 1
                &&& new.shelves.drop_last() == self.shelves.take(k)
                &&& new.shelves[k].sons == self.shelves[k].sons
                &&& new.shelves[k].at == self.shelves[k].at + 1
            },
    {
        Self::lemma_passing(self.origin, self.shelves, k);
    }

    /// The sons that were listed get their turn in the order that they were listed in. An
    /// empty list leads on, as a clear flag does.
    pub proof fn law_a_probe_goes_through_the_list(self, sons: Seq<R>, k: int)
        requires
            self.fits(),
            self.look is List,
            -1 <= k < self.shelves.len() - 1,
            forall|j: int|
                k < j < self.shelves.len() - 1 ==> (#[trigger] self.shelves[j]).at + 1
                    == self.shelves[j].sons.len() <= usize::MAX,
            0 <= k ==> self.shelves[k].at + 1 < self.shelves[k].sons.len() <= usize::MAX,
        ensures
            sons.len() > 0 ==> {
                let last = self.shelves.len() - 1;
                let new = self.after_list(sons);
                &&& new.origin == self.origin
                &&& new.look is Dirty
                &&& new.shelves.len() == last + 1
                &&& new.shelves.drop_last() == self.shelves.drop_last()
                &&& new.shelves[last].sons == sons
                &&& new.shelves[last].at == 0
            },
            sons.len() == 0 && k == -1 ==> self.after_list(sons).look == Look::Done(false),
            sons.len() == 0 && 0 <= k ==> {
                let new = self.after_list(sons);
                &&& new.origin == self.origin
                &&& new.look is Dirty
                &&& new.shelves.len() == k + 1
                &&& new.shelves.drop_last() == self.shelves.take(k)
                &&& new.shelves[k].sons == self.shelves[k].sons
                &&& new.shelves[k].at == self.shelves[k].at + 1
            },
    {
        let rest = self.shelves.drop_last();
        let new = self.after_list(sons);
        if sons.len() > 0 {
            assert(new.shelves.drop_last() =~= rest);
        } else {
            Self::lemma_passing(self.origin, rest, k);
            assert(self.shelves.take(k) =~= rest.take(k) || k == -1);
            assert(self.shelves.drop_last().push(
                (ShelfState { sons, at: 0 }),
            ).drop_last() =~= rest);
        }
    }

    proof fn lemma_passing(
        origin: R,
        shelves: Seq<ShelfState<R>>,
        k: int,
    )
        requires
            -1 <= k < shelves.len(),
            forall|j: int|
                k < j < shelves.len() ==> (#[trigger] shelves[j]).at + 1 == shelves[j].sons.len()
                    <= usize::MAX,
            0 <= k ==> shelves[k].at + 1 < shelves[k].sons.len() <= usize::MAX,
        ensures
            k == -1 ==> Self::passing(origin, shelves).look == Look::Done(false),
            0 <= k ==> {
                let new = Self::passing(origin, shelves);
                &&& new.origin == origin
                &&& new.look is Dirty
                &&& new.shelves.len() == k + 1
                &&& new.shelves.drop_last() == shelves.take(k)
                &&& new.shelves[k].sons == shelves[k].sons
                &&& new.shelves[k].at == shelves[k].at + 1
            },
        decreases shelves.len(),
    {
        if shelves.len() > 0 {
            if k == shelves.len() - 1 {
                assert(Self::passing(origin, shelves).shelves.drop_last() =~= shelves.take(k));
            } else {
                assert(!shelves[shelves.len() - 1].moved().busy());
                let rest = shelves.drop_last();
                Self::lemma_passing(origin, rest, k);
                if 0 <= k {
                    assert(rest.take(k) =~= shelves.take(k));
                }
            }
        }
    }

    proof fn lemma_passing_finds_nothing(
        origin: R,
        shelves: Seq<ShelfState<R>>,
    )
        ensures
            Self::passing(origin, shelves).look != Look::Done(true),
        decreases shelves.len(),
    {
        if shelves.len() > 0 && !shelves.last().moved().busy() {
            Self::lemma_passing_finds_nothing(origin, shelves.drop_last());
        }
    }
}

} // verus!
