//! Looking for something pending below a node of a shared tree, one step at a
//! time.
use vstd::prelude::*;

use crate::state::TreeState;

verus! {

/// What a probe does next.
#[derive(Clone, Copy, Debug)]
pub enum Look {
    /// Read the flag of the next node.
    Flag,
    /// List the sons of a node whose flag is up.
    List,
    /// Read the dirty bit of the next son.
    Dirty,
    /// Nothing is left to do: something is pending, or nothing is.
    Done(bool),
}

/// The sons of a node, and the place of the one whose turn it is.
#[derive(Clone, Debug)]
pub struct Shelf<R> {
    sons: Vec<R>,
    at: usize,
}

/// A walk that looks for a dirty descendant of a node and changes nothing. A
/// clear flag rules out everything below it.
#[derive(Clone, Debug)]
pub struct Probe<R> {
    origin: R,
    shelves: Vec<Shelf<R>>,
    look: Look,
}

/// The sons of a node and a place among them, as mathematics.
#[verifier::ext_equal]
pub struct ShelfState<R> {
    /// The sons, as they were listed.
    pub sons: Seq<R>,
    /// The place of the one whose turn it is.
    pub at: usize,
}

/// A probe, as mathematics.
#[verifier::ext_equal]
pub struct ProbeState<R> {
    /// The node whose descendants are looked at.
    pub origin: R,
    /// The nodes that the probe is inside of, from the origin down.
    pub shelves: Seq<ShelfState<R>>,
    /// What comes next.
    pub look: Look,
}

/// One look at the shared tree.
pub enum Glance<'a, R> {
    /// Read the subtree flag of a node: `seen`.
    Flag(&'a R),
    /// List the sons of a node: `listed`.
    List(&'a R),
    /// Read the dirty bit of a node: `seen`.
    Dirty(&'a R),
    /// Nothing: the probe is over, and whether something is pending.
    Finish(bool),
}

impl<R> View for Shelf<R> {
    type V = ShelfState<R>;

    closed spec fn view(&self) -> ShelfState<R> {
        ShelfState { sons: self.sons@, at: self.at }
    }
}

impl<R> View for Probe<R> {
    type V = ProbeState<R>;

    closed spec fn view(&self) -> ProbeState<R> {
        ProbeState {
            origin: self.origin,
            shelves: Seq::new(self.shelves@.len(), |i: int| self.shelves@[i]@),
            look: self.look,
        }
    }
}

impl<R> ShelfState<R> {
    /// There is a son whose turn it is.
    pub open spec fn busy(self) -> bool {
        self.at < self.sons.len()
    }

    /// The shelf with the turn of the next son.
    pub open spec fn moved(self) -> Self {
        ShelfState { at: (self.at + 1) as usize, ..self }
    }
}

impl<R> ProbeState<R> {
    /// A probe that has not looked at anything yet.
    pub open spec fn begun(origin: R) -> Self {
        ProbeState { origin, shelves: Seq::empty(), look: Look::Flag }
    }

    /// The node that shelf `k` belongs to; for one past the last shelf, the node
    /// whose turn it is.
    pub open spec fn place(self, k: int) -> R {
        Self::spot(self.origin, self.shelves, k)
    }

    /// The node that shelf `k` belongs to, over an origin.
    pub open spec fn spot(origin: R, shelves: Seq<ShelfState<R>>, k: int) -> R {
        if k <= 0 {
            origin
        } else {
            shelves[k - 1].sons[shelves[k - 1].at as int]
        }
    }

    /// On to the next son, out of every node that has none left.
    pub open spec fn seeking(origin: R, shelves: Seq<ShelfState<R>>) -> Self
        decreases shelves.len(),
    {
        if shelves.len() == 0 {
            ProbeState { origin, shelves, look: Look::Done(false) }
        } else if shelves.last().busy() {
            ProbeState { origin, shelves, look: Look::Dirty }
        } else {
            Self::passing(origin, shelves.drop_last())
        }
    }

    /// Past the son whose turn it was.
    pub open spec fn passing(origin: R, shelves: Seq<ShelfState<R>>) -> Self
        decreases shelves.len(),
    {
        if shelves.len() == 0 {
            ProbeState { origin, shelves, look: Look::Done(false) }
        } else if shelves.last().moved().busy() {
            ProbeState {
                origin,
                shelves: shelves.drop_last().push(shelves.last().moved()),
                look: Look::Dirty,
            }
        } else {
            Self::passing(origin, shelves.drop_last())
        }
    }

    /// The probe after a bit was read.
    pub open spec fn after_bit(self, up: bool) -> Self {
        match self.look {
            Look::Flag => if up {
                ProbeState {
                    shelves: self.shelves.push(ShelfState { sons: Seq::empty(), at: 0 }),
                    look: Look::List,
                    ..self
                }
            } else {
                Self::passing(self.origin, self.shelves)
            },
            Look::Dirty => ProbeState {
                look: if up {
                    Look::Done(true)
                } else {
                    Look::Flag
                },
                ..self
            },
            _ => self,
        }
    }

    /// The probe after a list was read.
    pub open spec fn after_list(self, sons: Seq<R>) -> Self {
        Self::seeking(self.origin, self.shelves.drop_last().push(ShelfState { sons, at: 0 }))
    }

    /// The parts of a probe fit together.
    pub open spec fn fits(self) -> bool {
        let len = self.shelves.len();
        &&& forall|k: int| 0 <= k < len - 1 ==> (#[trigger] self.shelves[k]).busy()
        &&& match self.look {
            Look::Flag => len == 0 || self.shelves.last().busy(),
            Look::List => len > 0,
            Look::Dirty => len > 0 && self.shelves.last().busy(),
            Look::Done(pending) => true,
        }
    }

    proof fn lemma_passing_fits(origin: R, shelves: Seq<ShelfState<R>>)
        requires
            forall|k: int| 0 <= k < shelves.len() ==> (#[trigger] shelves[k]).busy(),
        ensures
            Self::passing(origin, shelves).fits(),
        decreases shelves.len(),
    {
        if shelves.len() > 0 && !shelves.last().moved().busy() {
            Self::lemma_passing_fits(origin, shelves.drop_last());
        }
    }
}

impl<R> Probe<R> {
    proof fn lemma_view(&self)
        ensures
            self@.shelves.len() == self.shelves@.len(),
            forall|k: int|
                0 <= k < self.shelves@.len() ==> #[trigger] self@.shelves[k] == self.shelves@[k]@,
            self@.look == self.look,
            self@.origin == self.origin,
    {
    }

    /// A probe below `origin`.
    pub fn new(origin: R) -> (probe: Self)
        ensures
            probe@ == ProbeState::begun(origin),
            probe@.fits(),
    {
        let probe = Probe { origin, shelves: Vec::new(), look: Look::Flag };
        assert(probe@ =~= ProbeState::begun(origin));
        probe
    }

    fn place(&self, k: usize) -> (node: &R)
        requires
            k <= self@.shelves.len(),
            0 < k ==> self@.shelves[k - 1].busy(),
        ensures
            *node == self@.place(k as int),
    {
        if k == 0 {
            &self.origin
        } else {
            let shelf = &self.shelves[k - 1];
            &shelf.sons[shelf.at]
        }
    }

    /// The look at the shared tree that comes next.
    pub fn glance<'a>(&'a self) -> (glance: Glance<'a, R>)
        requires
            self@.fits(),
        ensures
            match self@.look {
                Look::Flag => glance == Glance::Flag(&self@.place(self@.shelves.len() as int)),
                Look::List => glance == Glance::List(&self@.place(self@.shelves.len() - 1)),
                Look::Dirty => glance == Glance::Dirty(&self@.place(self@.shelves.len() as int)),
                Look::Done(pending) => glance == Glance::<'a, R>::Finish(pending),
            },
    {
        proof {
            self.lemma_view();
        }
        let len: usize = self.shelves.len();
        match self.look {
            Look::Flag => Glance::Flag(self.place(len)),
            Look::List => Glance::List(self.place(len - 1)),
            Look::Dirty => Glance::Dirty(self.place(len)),
            Look::Done(pending) => Glance::Finish(pending),
        }
    }

    /// Past the son whose turn it was.
    fn pass(self) -> (probe: Self)
        requires
            forall|k: int| 0 <= k < self@.shelves.len() ==> (#[trigger] self@.shelves[k]).busy(),
        ensures
            probe@ == ProbeState::passing(self@.origin, self@.shelves),
    {
        let mut probe = self;
        loop
            invariant
                forall|k: int| 0 <= k < probe@.shelves.len() ==> (#[trigger] probe@.shelves[k]).busy(),
                probe@.origin == self@.origin,
                ProbeState::passing(self@.origin, self@.shelves) == ProbeState::passing(
                    probe@.origin,
                    probe@.shelves,
                ),
            decreases probe@.shelves.len(),
        {
            proof {
                probe.lemma_view();
            }
            let ghost before = probe@;
            let len: usize = probe.shelves.len();
            if len == 0 {
                probe.look = Look::Done(false);
                assert(probe@ =~= ProbeState::passing(self@.origin, self@.shelves));
                return probe;
            }
            let at: usize = probe.shelves[len - 1].at;
            assert(before.shelves[len - 1].busy());
            let count: usize = probe.shelves[len - 1].sons.len();
            if at + 1 < count {
                probe.shelves[len - 1].at = at + 1;
                probe.look = Look::Dirty;
                assert(probe@ =~= ProbeState::passing(before.origin, before.shelves));
                return probe;
            }
            let _ = probe.shelves.pop();
            assert(probe@.shelves =~= before.shelves.drop_last());
        }
    }

    /// The probe after a bit was read.
    pub fn seen(self, up: bool) -> (probe: Self)
        requires
            self@.fits(),
            self@.look is Flag || self@.look is Dirty,
        ensures
            probe@ == self@.after_bit(up),
            probe@.fits(),
    {
        proof {
            self.lemma_view();
            if self@.look is Flag {
                assert forall|k: int| 0 <= k < self@.shelves.len() implies (
                #[trigger] self@.shelves[k]).busy() by {}
                ProbeState::lemma_passing_fits(self@.origin, self@.shelves);
            }
        }
        let mut probe = self;
        match probe.look {
            Look::Flag => {
                if up {
                    probe.shelves.push(Shelf { sons: Vec::new(), at: 0 });
                    probe.look = Look::List;
                    assert(probe@ =~= self@.after_bit(up));
                    probe
                } else {
                    probe.pass()
                }
            },
            _ => {
                probe.look = if up {
                    Look::Done(true)
                } else {
                    Look::Flag
                };
                assert(probe@ =~= self@.after_bit(up));
                probe
            },
        }
    }

    /// The probe after a list was read.
    pub fn listed(self, sons: Vec<R>) -> (probe: Self)
        requires
            self@.fits(),
            self@.look is List,
        ensures
            probe@ == self@.after_list(sons@),
            probe@.fits(),
    {
        proof {
            self.lemma_view();
            let rest = self@.shelves.drop_last();
            assert forall|k: int| 0 <= k < rest.len() implies (#[trigger] rest[k]).busy() by {
                assert(self@.shelves[k].busy());
            }
            ProbeState::lemma_passing_fits(self@.origin, rest);
        }
        let mut probe = self;
        let _ = probe.shelves.pop();
        assert(probe@.shelves =~= self@.shelves.drop_last());
        let ghost shelf = ShelfState { sons: sons@, at: 0 };
        assert(self@.shelves.drop_last().push(shelf).drop_last() =~= self@.shelves.drop_last());
        if sons.len() > 0 {
            probe.shelves.push(Shelf { sons, at: 0 });
            probe.look = Look::Dirty;
            assert(probe@ =~= self@.after_list(sons@));
            probe
        } else {
            probe.pass()
        }
    }
}

// ---------------------------------------------------------------------------
// A probe of a tree that nobody changes meanwhile
// ---------------------------------------------------------------------------

impl<T> TreeState<T> {
    /// Shelf `k` holds a son that the probe has yet to come to and that has
    /// something to deliver. On the last shelf those count that are `from` places
    /// after the one whose turn it is, or later.
    spec fn shelf_pending(self, shelves: Seq<ShelfState<usize>>, k: int, from: int) -> bool {
        let first = shelves[k].at + if k == shelves.len() - 1 {
            from
        } else {
            1
        };
        0 <= k < shelves.len() && exists|j: int|
            first <= j < shelves[k].sons.len() && #[trigger] self.pending(shelves[k].sons[j])
    }

    /// Some son that the probe has yet to come to has something to deliver. On the
    /// last shelf those count that are `from` places after the one whose turn it
    /// is, or later.
    pub closed spec fn pending_ahead(self, shelves: Seq<ShelfState<usize>>, from: int) -> bool {
        exists|k: int| #[trigger] self.shelf_pending(shelves, k, from)
    }

    /// What the probe will say in the end.
    pub open spec fn verdict(self, probe: ProbeState<usize>) -> bool {
        let len = probe.shelves.len();
        match probe.look {
            Look::Flag => self.stirred(probe.place(len as int)) || self.pending_ahead(
                probe.shelves,
                1,
            ),
            Look::List => self.stirred(probe.place(len - 1)) || self.pending_ahead(
                probe.shelves,
                1,
            ),
            Look::Dirty => self.pending_ahead(probe.shelves, 0),
            Look::Done(pending) => pending,
        }
    }

    /// What is on the shelves are nodes of this tree, younger than the node that
    /// the shelf belongs to.
    pub open spec fn stocked(self, origin: usize, shelves: Seq<ShelfState<usize>>) -> bool {
        &&& forall|k: int|
            0 <= k < shelves.len() ==> (#[trigger] shelves[k]).sons.len() <= usize::MAX
        &&& forall|k: int, j: int|
            0 <= k < shelves.len() && 0 <= j < shelves[k].sons.len() ==> {
                let s = #[trigger] shelves[k].sons[j];
                self.has(s) && ProbeState::spot(origin, shelves, k) < s
            }
    }

    /// The probe is inside of nodes of this tree.
    pub open spec fn hosts(self, probe: ProbeState<usize>) -> bool {
        &&& probe.fits()
        &&& self.has(probe.origin)
        &&& self.stocked(probe.origin, probe.shelves)
        &&& probe.look is List ==> probe.shelves.last() == (ShelfState::<usize> {
            sons: Seq::empty(),
            at: 0,
        })
    }

    /// The probe after its next look at this tree.
    pub open spec fn looked(self, probe: ProbeState<usize>) -> ProbeState<usize> {
        let len = probe.shelves.len();
        match probe.look {
            Look::Flag => probe.after_bit(self.node(probe.place(len as int)).subtree_dirty),
            Look::List => probe.after_list(self.node(probe.place(len - 1)).sons),
            Look::Dirty => probe.after_bit(self.node(probe.place(len as int)).dirty),
            Look::Done(pending) => probe,
        }
    }

    /// Without its last shelf, a stock is still one.
    pub proof fn lemma_stocked_rest(self, origin: usize, shelves: Seq<ShelfState<usize>>)
        requires
            self.stocked(origin, shelves),
            shelves.len() > 0,
        ensures
            self.stocked(origin, shelves.drop_last()),
    {
        let rest = shelves.drop_last();
        assert forall|k: int, j: int|
            0 <= k < rest.len() && 0 <= j < rest[k].sons.len() implies {
            let s = #[trigger] rest[k].sons[j];
            self.has(s) && ProbeState::spot(origin, rest, k) < s
        } by {
            assert(self.has(shelves[k].sons[j]));
        }
    }

    /// Past the son whose turn it was, what counts is what is ahead.
    proof fn lemma_passing(self, origin: usize, shelves: Seq<ShelfState<usize>>)
        requires
            self.has(origin),
            forall|k: int| 0 <= k < shelves.len() ==> (#[trigger] shelves[k]).busy(),
            self.stocked(origin, shelves),
        ensures
            self.hosts(ProbeState::passing(origin, shelves)),
            self.verdict(ProbeState::passing(origin, shelves)) == self.pending_ahead(shelves, 1),
        decreases shelves.len(),
    {
        ProbeState::lemma_passing_fits(origin, shelves);
        let new = ProbeState::passing(origin, shelves);
        let last = shelves.len() - 1;
        if shelves.len() > 0 {
            let rest = shelves.drop_last();
            if shelves.last().moved().busy() {
                assert forall|k: int, j: int|
                    0 <= k < new.shelves.len() && 0 <= j < new.shelves[k].sons.len() implies {
                    let s = #[trigger] new.shelves[k].sons[j];
                    self.has(s) && new.place(k) < s
                } by {
                    assert(new.shelves[k].sons == shelves[k].sons);
                    assert(self.has(shelves[k].sons[j]));
                }
                if self.pending_ahead(shelves, 1) {
                    let k = choose|k: int| #[trigger] self.shelf_pending(shelves, k, 1);
                    let j = choose|j: int|
                        shelves[k].at + 1 <= j < shelves[k].sons.len() && #[trigger] self.pending(
                            shelves[k].sons[j],
                        );
                    assert(self.pending(new.shelves[k].sons[j]));
                    assert(self.shelf_pending(new.shelves, k, 0));
                }
                if self.pending_ahead(new.shelves, 0) {
                    let k = choose|k: int| #[trigger] self.shelf_pending(new.shelves, k, 0);
                    let from: int = if k == new.shelves.len() - 1 {
                        0
                    } else {
                        1
                    };
                    let j = choose|j: int|
                        new.shelves[k].at + from <= j < new.shelves[k].sons.len()
                            && #[trigger] self.pending(new.shelves[k].sons[j]);
                    assert(self.pending(shelves[k].sons[j]));
                    assert(self.shelf_pending(shelves, k, 1));
                }
            } else {
                self.lemma_stocked_rest(origin, shelves);
                self.lemma_passing(origin, rest);
                self.lemma_last_shelf_empty(shelves, 1);
            }
        }
    }

    /// The last shelf, and the ones before it.
    proof fn lemma_split_last(self, shelves: Seq<ShelfState<usize>>, from: int)
        requires
            shelves.len() > 0,
        ensures
            self.pending_ahead(shelves, from) == (self.pending_ahead(shelves.drop_last(), 1)
                || self.shelf_pending(shelves, shelves.len() - 1, from)),
    {
        let rest = shelves.drop_last();
        let last = shelves.len() - 1;
        if self.pending_ahead(shelves, from) && !self.shelf_pending(shelves, last, from) {
            let k = choose|k: int| #[trigger] self.shelf_pending(shelves, k, from);
            let j = choose|j: int|
                shelves[k].at + 1 <= j < shelves[k].sons.len() && #[trigger] self.pending(
                    shelves[k].sons[j],
                );
            assert(self.pending(rest[k].sons[j]));
            assert(self.shelf_pending(rest, k, 1));
        }
        if self.pending_ahead(rest, 1) {
            let k = choose|k: int| #[trigger] self.shelf_pending(rest, k, 1);
            let j = choose|j: int|
                rest[k].at + 1 <= j < rest[k].sons.len() && #[trigger] self.pending(
                    rest[k].sons[j],
                );
            assert(self.pending(shelves[k].sons[j]));
            assert(self.shelf_pending(shelves, k, from));
        }
    }

    /// A last shelf with nothing left on it does not count.
    proof fn lemma_last_shelf_empty(self, shelves: Seq<ShelfState<usize>>, from: int)
        requires
            shelves.len() > 0,
            shelves.last().at + from >= shelves.last().sons.len(),
        ensures
            self.pending_ahead(shelves, from) == self.pending_ahead(shelves.drop_last(), 1),
    {
        self.lemma_split_last(shelves, from);
    }

    /// A probe that has not looked at anything yet will say whether anything
    /// below its node is dirty.
    pub proof fn law_a_probe_asks_whether_anything_is_pending(self, n: usize)
        requires
            self.has(n),
        ensures
            self.hosts(ProbeState::begun(n)),
            self.verdict(ProbeState::begun(n)) == self.stirred(n),
    {
    }

    /// Where the flag of its first node is down, a probe is over after that one
    /// look, whatever is below.
    pub proof fn law_a_clear_flag_ends_a_probe_at_once(self, n: usize)
        requires
            !self.node(n).subtree_dirty,
        ensures
            self.looked(ProbeState::begun(n)).look == Look::Done(false),
    {
    }

    /// A look at a sound tree does not change what the probe will say.
    pub proof fn law_a_probe_keeps_its_verdict(self, probe: ProbeState<usize>)
        requires
            self.shaped(),
            self.coherent(),
            self.hosts(probe),
        ensures
            self.hosts(self.looked(probe)),
            self.verdict(self.looked(probe)) == self.verdict(probe),
    {
        let len = probe.shelves.len();
        let last = len - 1;
        let new = self.looked(probe);
        match probe.look {
            Look::Flag => {
                let n = probe.place(len as int);
                assert(self.has(n)) by {
                    if len > 0 {
                        assert(self.has(probe.shelves[last].sons[probe.shelves[last].at as int]));
                    }
                }
                if self.node(n).subtree_dirty {
                    let shelf = ShelfState::<usize> { sons: Seq::empty(), at: 0 };
                    assert(new.shelves == probe.shelves.push(shelf));
                    assert(new.shelves.drop_last() =~= probe.shelves);
                    assert(new.place(len as int) == n) by {
                        if len > 0 {
                            assert(new.shelves[last] == probe.shelves[last]);
                        }
                    }
                    self.lemma_last_shelf_empty(new.shelves, 1);
                    assert forall|k: int, j: int|
                        0 <= k < new.shelves.len() && 0 <= j < new.shelves[k].sons.len() implies {
                        let s = #[trigger] new.shelves[k].sons[j];
                        self.has(s) && new.place(k) < s
                    } by {
                        assert(self.has(probe.shelves[k].sons[j]));
                    }
                } else {
                    if self.stirred(n) {
                        if n != 0 {
                            self.lemma_under_root(n);
                            self.lemma_coherent_branch(0, n);
                        }
                        self.lemma_stirred_is_flagged(n);
                    }
                    self.lemma_passing(probe.origin, probe.shelves);
                }
            },
            Look::List => {
                let n = probe.place(last);
                assert(self.has(n)) by {
                    if last > 0 {
                        assert(probe.shelves[last - 1].busy());
                        assert(self.has(
                            probe.shelves[last - 1].sons[probe.shelves[last - 1].at as int],
                        ));
                    }
                }
                let sons = self.node(n).sons;
                let rest = probe.shelves.drop_last();
                let shelf = ShelfState { sons, at: 0 };
                let whole = rest.push(shelf);
                assert(whole.drop_last() =~= rest);
                self.lemma_few_sons(n);
                self.lemma_stirred_by_sons(n);
                self.lemma_last_shelf_empty(probe.shelves, 1);
                self.lemma_stocked_rest(probe.origin, probe.shelves);
                if shelf.busy() {
                    assert(new.shelves == whole);
                    self.lemma_split_last(whole, 0);
                    assert forall|k: int, j: int|
                        0 <= k < whole.len() && 0 <= j < whole[k].sons.len() implies {
                        let s = #[trigger] whole[k].sons[j];
                        self.has(s) && ProbeState::spot(probe.origin, whole, k) < s
                    } by {
                        if k < last {
                            assert(self.has(rest[k].sons[j]));
                        } else {
                            self.lemma_son(n, j);
                        }
                    }
                    if self.stirred(n) {
                        let j = choose|j: int|
                            0 <= j < sons.len() && #[trigger] self.pending(sons[j]);
                        assert(self.pending(whole[last].sons[j]));
                        assert(self.shelf_pending(whole, last, 0));
                    }
                    if self.shelf_pending(whole, last, 0) {
                        let j = choose|j: int|
                            whole[last].at + 0 <= j < whole[last].sons.len()
                                && #[trigger] self.pending(whole[last].sons[j]);
                        assert(self.pending(sons[j]));
                    }
                } else {
                    assert forall|k: int| 0 <= k < rest.len() implies (
                    #[trigger] rest[k]).busy() by {
                        assert(probe.shelves[k].busy());
                    }
                    self.lemma_passing(probe.origin, rest);
                }
            },
            Look::Dirty => {
                let shelf = probe.shelves.last();
                let s = shelf.sons[shelf.at as int];
                assert(self.has(probe.shelves[last].sons[shelf.at as int]));
                self.lemma_split_last(probe.shelves, 0);
                self.lemma_split_last(probe.shelves, 1);
                assert(self.shelf_pending(probe.shelves, last, 0) == (self.pending(s)
                    || self.shelf_pending(probe.shelves, last, 1))) by {
                    if self.pending(s) {
                        assert(self.pending(probe.shelves[last].sons[shelf.at as int]));
                    }
                    if self.shelf_pending(probe.shelves, last, 1) {
                        let j = choose|j: int|
                            probe.shelves[last].at + 1 <= j < probe.shelves[last].sons.len()
                                && #[trigger] self.pending(probe.shelves[last].sons[j]);
                        assert(self.pending(probe.shelves[last].sons[j]));
                    }
                }
            },
            Look::Done(pending) => {},
        }
    }
}

} // verus!
