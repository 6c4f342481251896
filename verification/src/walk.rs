//! The walks over a shared tree, one step at a time.
//!
//! Threads that share a tree touch it one cell at a time: one flag, one count,
//! or what one lock guards. Between two touches any other thread may run. A
//! walk here is a plain value that says which cell it touches next and takes
//! in what was found there, so the same walk can be driven over any kind of
//! shared memory. No step asks for more than one lock.
//!
//! `R` is the way a node is referred to.
use vstd::prelude::*;

verus! {

/// What a walk down does next.
#[derive(Clone, Debug)]
pub enum Stage<T> {
    /// Lower the flag of the next node, and learn whether it was up.
    Enter,
    /// List the sons of the node just entered.
    List,
    /// Look at the dirty bit of the current son. The son changed on the way, or
    /// it did not.
    Dirty(bool),
    /// Take the delta of the current son.
    Take,
    /// Fold the delta in hand into the father.
    Fold(T),
    /// See whether the current son is dead.
    Dead,
    /// See whether the current son still has handles.
    Handles,
    /// See whether the current son was written to again.
    Clean,
    /// See whether the current son has sons of its own.
    Empty,
    /// Unlink the sons that were found spent.
    Unlink,
    /// Nothing is left to do. The data of the first node changed, or it did not.
    Done(bool),
}

/// A node that a walk is inside of.
#[derive(Clone, Debug)]
pub struct Frame<R> {
    // the sons, as they were listed on the way in
    sons: Vec<R>,
    // the son whose turn it is
    at: usize,
    // the places of the sons that were found spent
    spent: Vec<usize>,
    // something was folded into this node
    changed: bool,
}

/// A walk that folds every dirty descendant of a node into it, deepest first,
/// and unlinks what is spent.
#[derive(Clone, Debug)]
pub struct Walk<R, T> {
    origin: R,
    frames: Vec<Frame<R>>,
    stage: Stage<T>,
}

/// A frame, as mathematics.
#[verifier::ext_equal]
pub struct FrameState<R> {
    /// The sons, as they were listed on the way in.
    pub sons: Seq<R>,
    /// The place of the son whose turn it is.
    pub at: usize,
    /// The places of the sons that were found spent.
    pub spent: Seq<usize>,
    /// Something was folded into this node.
    pub changed: bool,
}

/// A walk, as mathematics.
#[verifier::ext_equal]
pub struct WalkState<R, T> {
    /// The node that everything is folded into.
    pub origin: R,
    /// The nodes that the walk is inside of, from the origin down.
    pub frames: Seq<FrameState<R>>,
    /// What comes next.
    pub stage: Stage<T>,
}

/// One touch of the shared tree.
pub enum Action<'a, R, T> {
    /// Lower the subtree flag of a node: `Reply::Flag`, what it was before.
    Lower(&'a R),
    /// List the sons of a node: `Reply::Sons`.
    List(&'a R),
    /// Read the dirty bit of a node: `Reply::Flag`.
    LoadDirty(&'a R),
    /// Under the data lock of a node, lower its dirty bit, take its data and put
    /// the identity in its place: `Reply::Delta`.
    Take(&'a R),
    /// Under the data lock of a node, fold a delta into its data: `Reply::Ack`.
    Fold(&'a R, &'a T),
    /// Read whether a node is dead: `Reply::Flag`.
    LoadDead(&'a R),
    /// Read the number of handles of a node: `Reply::Count`.
    LoadHandles(&'a R),
    /// See whether the list of sons of a node is empty: `Reply::Flag`.
    IsEmpty(&'a R),
    /// Under the lock on the sons of a node, drop from the list those of the
    /// given sons at the given places that have no handles and are not dirty:
    /// `Reply::Ack`.
    Unlink(&'a R, &'a Vec<R>, &'a Vec<usize>),
    /// Nothing: the walk is over, and whether the data of its first node changed.
    Finish(bool),
}

/// One touch of the shared tree, as mathematics.
pub enum Deed<R, T> {
    Lower(R),
    List(R),
    LoadDirty(R),
    Take(R),
    Fold(R, T),
    LoadDead(R),
    LoadHandles(R),
    IsEmpty(R),
    Unlink(R, Seq<R>),
    Finish(bool),
}

/// What was found at a touch.
#[derive(Clone, Debug)]
pub enum Reply<R, T> {
    /// A bit.
    Flag(bool),
    /// A number of handles.
    Count(usize),
    /// A list of sons.
    Sons(Vec<R>),
    /// The data of a node.
    Delta(T),
    /// Nothing to report.
    Ack,
}

/// What was found at a touch, as mathematics.
#[verifier::ext_equal]
pub enum Found<R, T> {
    Flag(bool),
    Count(usize),
    Sons(Seq<R>),
    Delta(T),
    Ack,
}

impl<R> View for Frame<R> {
    type V = FrameState<R>;

    closed spec fn view(&self) -> FrameState<R> {
        FrameState {
            sons: self.sons@,
            at: self.at,
            spent: self.spent@,
            changed: self.changed,
        }
    }
}

impl<R, T> View for Walk<R, T> {
    type V = WalkState<R, T>;

    closed spec fn view(&self) -> WalkState<R, T> {
        WalkState {
            origin: self.origin,
            frames: Seq::new(self.frames@.len(), |i: int| self.frames@[i]@),
            stage: self.stage,
        }
    }
}

impl<'a, R, T> View for Action<'a, R, T> {
    type V = Deed<R, T>;

    open spec fn view(&self) -> Deed<R, T> {
        match *self {
            Action::Lower(n) => Deed::Lower(*n),
            Action::List(n) => Deed::List(*n),
            Action::LoadDirty(n) => Deed::LoadDirty(*n),
            Action::Take(n) => Deed::Take(*n),
            Action::Fold(n, delta) => Deed::Fold(*n, *delta),
            Action::LoadDead(n) => Deed::LoadDead(*n),
            Action::LoadHandles(n) => Deed::LoadHandles(*n),
            Action::IsEmpty(n) => Deed::IsEmpty(*n),
            Action::Unlink(n, sons, places) => Deed::Unlink(*n, picked(sons@, places@)),
            Action::Finish(changed) => Deed::Finish(changed),
        }
    }
}

impl<R, T> View for Reply<R, T> {
    type V = Found<R, T>;

    open spec fn view(&self) -> Found<R, T> {
        match *self {
            Reply::Flag(flag) => Found::Flag(flag),
            Reply::Count(count) => Found::Count(count),
            Reply::Sons(sons) => Found::Sons(sons@),
            Reply::Delta(delta) => Found::Delta(delta),
            Reply::Ack => Found::Ack,
        }
    }
}

/// The values of a sequence at the given places.
pub open spec fn picked<R>(values: Seq<R>, places: Seq<usize>) -> Seq<R> {
    Seq::new(places.len(), |i: int| values[places[i] as int])
}

impl<R> FrameState<R> {
    /// A node just entered, its sons not listed yet.
    pub open spec fn opened() -> Self {
        FrameState { sons: Seq::empty(), at: 0, spent: Seq::empty(), changed: false }
    }

    /// The son whose turn it is.
    pub open spec fn current(self) -> R {
        self.sons[self.at as int]
    }

    /// There is a son whose turn it is.
    pub open spec fn busy(self) -> bool {
        self.at < self.sons.len()
    }
}

impl<R, T> WalkState<R, T> {
    /// A walk that has not touched anything yet.
    pub open spec fn begun(origin: R) -> Self {
        WalkState { origin, frames: Seq::empty(), stage: Stage::Enter }
    }

    /// The innermost node that the walk is inside of.
    pub open spec fn top(self) -> FrameState<R> {
        self.frames.last()
    }

    /// The node that frame `k` is inside of.
    pub open spec fn place(self, k: int) -> R {
        if k <= 0 {
            self.origin
        } else {
            self.frames[k - 1].current()
        }
    }

    /// The walk with another innermost frame and stage.
    pub open spec fn with_top(self, top: FrameState<R>, stage: Stage<T>) -> Self {
        WalkState { frames: self.frames.drop_last().push(top), stage, ..self }
    }

    /// The walk out of its innermost node.
    pub open spec fn left(self) -> Self {
        let frames = self.frames.drop_last();
        let changed = self.top().changed;
        WalkState {
            frames,
            stage: if frames.len() == 0 {
                Stage::Done(changed)
            } else {
                Stage::Dirty(changed)
            },
            ..self
        }
    }

    /// The walk on its way to the son whose turn it is, or out of the node where
    /// there is none, past the unlinking of spent sons where there are any.
    pub open spec fn seeking(self, top: FrameState<R>) -> Self {
        if top.busy() {
            self.with_top(top, Stage::Enter)
        } else if top.spent.len() > 0 {
            self.with_top(top, Stage::Unlink)
        } else {
            self.with_top(top, Stage::Unlink).left()
        }
    }

    /// The walk past the son whose turn it was.
    pub open spec fn past(self, top: FrameState<R>) -> Self {
        self.seeking(FrameState { at: (top.at + 1) as usize, ..top })
    }

    /// The touch that comes next.
    pub open spec fn deed(self) -> Deed<R, T> {
        match self.stage {
            Stage::Enter => Deed::Lower(self.place(self.frames.len() as int)),
            Stage::List => Deed::List(self.place(self.frames.len() - 1)),
            Stage::Dirty(changed) => Deed::LoadDirty(self.top().current()),
            Stage::Take => Deed::Take(self.top().current()),
            Stage::Fold(delta) => Deed::Fold(self.place(self.frames.len() - 1), delta),
            Stage::Dead => Deed::LoadDead(self.top().current()),
            Stage::Handles => Deed::LoadHandles(self.top().current()),
            Stage::Clean => Deed::LoadDirty(self.top().current()),
            Stage::Empty => Deed::IsEmpty(self.top().current()),
            Stage::Unlink => Deed::Unlink(
                self.place(self.frames.len() - 1),
                picked(self.top().sons, self.top().spent),
            ),
            Stage::Done(changed) => Deed::Finish(changed),
        }
    }

    /// `found` answers the touch that comes next.
    pub open spec fn awaits(self, found: Found<R, T>) -> bool {
        match self.stage {
            Stage::Enter => found is Flag,
            Stage::List => found is Sons,
            Stage::Dirty(changed) => found is Flag,
            Stage::Take => found is Delta,
            Stage::Fold(delta) => found is Ack,
            Stage::Dead => found is Flag,
            Stage::Handles => found is Count,
            Stage::Clean => found is Flag,
            Stage::Empty => found is Flag,
            Stage::Unlink => found is Ack,
            Stage::Done(changed) => found is Ack,
        }
    }

    /// The walk after a touch.
    pub open spec fn next(self, found: Found<R, T>) -> Self {
        let top = self.top();
        match self.stage {
            // a clear flag: nothing below has changed
            Stage::Enter => if found->Flag_0 {
                WalkState {
                    frames: self.frames.push(FrameState::opened()),
                    stage: Stage::List,
                    ..self
                }
            } else if self.frames.len() == 0 {
                WalkState { stage: Stage::Done(false), ..self }
            } else {
                WalkState { stage: Stage::Dirty(false), ..self }
            },
            Stage::List => self.seeking(FrameState { sons: found->Sons_0, ..top }),
            Stage::Dirty(changed) => if found->Flag_0 || changed {
                WalkState { stage: Stage::Take, ..self }
            } else {
                WalkState { stage: Stage::Dead, ..self }
            },
            Stage::Take => WalkState { stage: Stage::Fold(found->Delta_0), ..self },
            Stage::Fold(delta) => self.with_top(FrameState { changed: true, ..top }, Stage::Dead),
            Stage::Dead => if found->Flag_0 {
                WalkState { stage: Stage::Handles, ..self }
            } else {
                self.past(top)
            },
            Stage::Handles => if found->Count_0 == 0 {
                WalkState { stage: Stage::Clean, ..self }
            } else {
                self.past(top)
            },
            Stage::Clean => if !found->Flag_0 {
                WalkState { stage: Stage::Empty, ..self }
            } else {
                self.past(top)
            },
            Stage::Empty => if found->Flag_0 {
                self.past(FrameState { spent: top.spent.push(top.at), ..top })
            } else {
                self.past(top)
            },
            Stage::Unlink => self.left(),
            Stage::Done(changed) => self,
        }
    }

    /// The parts of a walk fit together.
    pub open spec fn fits(self) -> bool {
        let len = self.frames.len();
        &&& forall|k: int| 0 <= k < len - 1 ==> (#[trigger] self.frames[k]).busy()
        &&& forall|k: int, i: int|
            0 <= k < len && 0 <= i < self.frames[k].spent.len() ==> (
            #[trigger] self.frames[k].spent[i]) < self.frames[k].sons.len()
        &&& match self.stage {
            Stage::Enter => len == 0 || self.top().busy(),
            Stage::List => len > 0 && self.top() == FrameState::<R>::opened(),
            Stage::Unlink => len > 0 && self.top().at == self.top().sons.len(),
            Stage::Done(changed) => len == 0,
            _ => len > 0 && self.top().busy(),
        }
    }
}

impl<R, T> WalkState<R, T> {
    /// Where the flag of its first node is down, a walk is over after that one
    /// touch, whatever is below.
    pub proof fn law_a_clear_flag_ends_a_walk_at_once(origin: R)
        ensures
            Self::begun(origin).deed() == Deed::<R, T>::Lower(origin),
            Self::begun(origin).next(Found::Flag(false)).stage == Stage::<T>::Done(false),
    {
    }
}

impl<R, T> Walk<R, T> {
    proof fn lemma_view(&self)
        ensures
            self@.frames.len() == self.frames@.len(),
            forall|k: int| 0 <= k < self.frames@.len() ==> #[trigger] self@.frames[k] == self.frames@[k]@,
            self@.stage == self.stage,
            self@.origin == self.origin,
    {
    }

    /// A walk that folds everything below `origin` into it.
    pub fn new(origin: R) -> (walk: Self)
        ensures
            walk@ == WalkState::<R, T>::begun(origin),
            walk@.fits(),
    {
        let walk = Walk { origin, frames: Vec::new(), stage: Stage::Enter };
        assert(walk@ =~= WalkState::<R, T>::begun(origin));
        walk
    }

    /// The node that everything is folded into.
    pub fn origin(&self) -> (origin: &R)
        ensures
            *origin == self@.origin,
    {
        &self.origin
    }

    /// The node that frame `k` is inside of; for one past the last frame, the
    /// node that would be entered next.
    fn place(&self, k: usize) -> (node: &R)
        requires
            k <= self@.frames.len(),
            0 < k ==> self@.frames[k - 1].busy(),
        ensures
            *node == self@.place(k as int),
    {
        if k == 0 {
            &self.origin
        } else {
            let frame = &self.frames[k - 1];
            &frame.sons[frame.at]
        }
    }

    /// The touch of the shared tree that comes next.
    pub fn action<'a>(&'a self) -> (action: Action<'a, R, T>)
        requires
            self@.fits(),
        ensures
            action@ == self@.deed(),
            action is Unlink ==> forall|i: int|
                0 <= i < action->Unlink_2@.len() ==> #[trigger] action->Unlink_2@[i]
                    < action->Unlink_1@.len(),
    {
        proof {
            self.lemma_view();
        }
        let len: usize = self.frames.len();
        match &self.stage {
            Stage::Enter => Action::Lower(self.place(len)),
            Stage::List => Action::List(self.place(len - 1)),
            Stage::Dirty(_) => Action::LoadDirty(self.place(len)),
            Stage::Take => Action::Take(self.place(len)),
            Stage::Fold(delta) => Action::Fold(self.place(len - 1), delta),
            Stage::Dead => Action::LoadDead(self.place(len)),
            Stage::Handles => Action::LoadHandles(self.place(len)),
            Stage::Clean => Action::LoadDirty(self.place(len)),
            Stage::Empty => Action::IsEmpty(self.place(len)),
            Stage::Unlink => {
                let top = &self.frames[len - 1];
                proof {
                    assert forall|i: int| 0 <= i < top.spent@.len() implies #[trigger] top.spent@[i]
                        < top.sons@.len() by {
                        assert(self@.frames[len - 1].spent[i] < self@.frames[len - 1].sons.len());
                    }
                }
                Action::Unlink(self.place(len - 1), &top.sons, &top.spent)
            },
            Stage::Done(changed) => Action::Finish(*changed),
        }
    }

    /// The walk with a stage of its own for the innermost frame.
    fn staged(self, stage: Stage<T>) -> (walk: Self)
        ensures
            walk@ == (WalkState { stage, ..self@ }),
    {
        let walk = Walk { origin: self.origin, frames: self.frames, stage };
        assert(walk@ =~= (WalkState { stage, ..self@ }));
        walk
    }

    /// Out of the innermost node.
    fn leave(self) -> (walk: Self)
        requires
            self@.frames.len() > 0,
        ensures
            walk@ == self@.left(),
    {
        let mut frames = self.frames;
        let changed: bool = match frames.pop() {
            Some(frame) => frame.changed,
            None => false,
        };
        let stage = if frames.len() == 0 {
            Stage::Done(changed)
        } else {
            Stage::Dirty(changed)
        };
        let walk = Walk { origin: self.origin, frames, stage };
        assert(walk@ =~= self@.left());
        walk
    }

    /// On to the son whose turn it is, or out of the node.
    fn seek(self) -> (walk: Self)
        requires
            self@.frames.len() > 0,
        ensures
            walk@ == self@.seeking(self@.top()),
    {
        let top = &self.frames[self.frames.len() - 1];
        assert(self@.frames.drop_last().push(self@.top()) =~= self@.frames);
        if top.at < top.sons.len() {
            self.staged(Stage::Enter)
        } else if top.spent.len() > 0 {
            self.staged(Stage::Unlink)
        } else {
            self.staged(Stage::Unlink).leave()
        }
    }

    /// Past the son whose turn it was. A spent one is noted first.
    fn pass(self, spent: bool) -> (walk: Self)
        requires
            self@.frames.len() > 0,
            self@.top().busy(),
        ensures
            walk@ == self@.past(
                if spent {
                    FrameState { spent: self@.top().spent.push(self@.top().at), ..self@.top() }
                } else {
                    self@.top()
                },
            ),
    {
        let mut walk = self;
        let last: usize = walk.frames.len() - 1;
        let at: usize = walk.frames[last].at;
        assert(at < walk.frames[last as int].sons.len());
        if spent {
            walk.frames[last].spent.push(at);
        }
        walk.frames[last].at = at + 1;
        assert(walk@.frames.drop_last() =~= self@.frames.drop_last());
        walk.seek()
    }

    /// The walk after a touch, given what was found there.
    pub fn resume(self, reply: Reply<R, T>) -> (walk: Self)
        requires
            self@.fits(),
            self@.awaits(reply@),
        ensures
            walk@ == self@.next(reply@),
            walk@.fits(),
    {
        proof {
            self.lemma_view();
            self@.lemma_next_fits(reply@);
        }
        let walk = self;
        match (&walk.stage, reply) {
            (Stage::Enter, Reply::Flag(raised)) => {
                if raised {
                    let mut walk = walk;
                    walk.frames.push(
                        Frame { sons: Vec::new(), at: 0, spent: Vec::new(), changed: false },
                    );
                    let walk = walk.staged(Stage::List);
                    assert(walk@ =~= self@.next(reply@));
                    walk
                } else if walk.frames.len() == 0 {
                    walk.staged(Stage::Done(false))
                } else {
                    walk.staged(Stage::Dirty(false))
                }
            },
            (Stage::List, Reply::Sons(sons)) => {
                let mut walk = walk;
                let last: usize = walk.frames.len() - 1;
                walk.frames[last].sons = sons;
                assert(walk@.frames.drop_last() =~= self@.frames.drop_last());
                walk.seek()
            },
            (Stage::Dirty(changed), Reply::Flag(dirty)) => {
                if dirty || *changed {
                    walk.staged(Stage::Take)
                } else {
                    walk.staged(Stage::Dead)
                }
            },
            (Stage::Take, Reply::Delta(delta)) => walk.staged(Stage::Fold(delta)),
            (Stage::Fold(_), Reply::Ack) => {
                let mut walk = walk;
                let last: usize = walk.frames.len() - 1;
                walk.frames[last].changed = true;
                let walk = walk.staged(Stage::Dead);
                assert(walk@ =~= self@.next(reply@));
                walk
            },
            (Stage::Dead, Reply::Flag(dead)) => {
                if dead {
                    walk.staged(Stage::Handles)
                } else {
                    walk.pass(false)
                }
            },
            (Stage::Handles, Reply::Count(handles)) => {
                if handles == 0 {
                    walk.staged(Stage::Clean)
                } else {
                    walk.pass(false)
                }
            },
            (Stage::Clean, Reply::Flag(dirty)) => {
                if !dirty {
                    walk.staged(Stage::Empty)
                } else {
                    walk.pass(false)
                }
            },
            (Stage::Empty, Reply::Flag(empty)) => walk.pass(empty),
            (Stage::Unlink, Reply::Ack) => walk.leave(),
            _ => walk,
        }
    }
}

impl<R, T> WalkState<R, T> {
    /// The parts of a walk keep fitting together.
    pub proof fn lemma_next_fits(self, found: Found<R, T>)
        requires
            self.fits(),
            self.awaits(found),
        ensures
            self.next(found).fits(),
    {
    }
}

} // verus!
