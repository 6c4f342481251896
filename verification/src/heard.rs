//! What a read takes in while others write.
//!
//! A read that is alone with any number of writers takes in everything below its node
//! that was announced all the way up to it when the read began. The deltas are
//! followed one by one, from the nodes that hold them through the hand of the reader to
//! the node that is read.
use vstd::prelude::*;

use crate::interleave::CrewState;
use crate::interleave::TaskState;
use crate::monoid::commutative_monoid;
use crate::monoid::lemma_identity;
use crate::monoid::lemma_sum_blank;
use crate::monoid::lemma_sum_single;
use crate::monoid::lemma_sum_zip;
use crate::monoid::sum;
use crate::runs::added;
use crate::runs::Event;
use crate::state::TreeState;
use crate::walk::Stage;
use crate::walk::WalkState;

verus! {

impl<T> TreeState<T> {
    /// `c`, below `n`, is dirty, and everything above it up to `n` has its flag up.
    pub open spec fn heard(self, c: usize, n: usize) -> bool {
        &&& self.has(c)
        &&& self.node(c).ancestors.contains(n)
        &&& self.node(c).dirty
        &&& forall|a: usize| #[trigger]
            self.node(c).ancestors.contains(a) && (a == n || self.node(a).ancestors.contains(n))
                ==> self.node(a).subtree_dirty
    }
}

/// Those of the values that are marked, and the identity in place of the others.
pub open spec fn marked_of<T>(values: Seq<T>, marks: Seq<bool>, identity: T) -> Seq<T> {
    Seq::new(
        values.len(),
        |k: int|
            if marks[k] {
                values[k]
            } else {
                identity
            },
    )
}

impl<T> TreeState<T> {
    /// `data` is the marked ones, together, of what the nodes of this tree hold and of
    /// what was written `later`. Marked are what `n` holds and all that is heard at `n`,
    /// and nothing that is held outside of `n`.
    pub open spec fn accounts_for(
        self,
        g: spec_fn(T, T) -> T,
        n: usize,
        later: Seq<T>,
        marks: Seq<bool>,
        data: T,
    ) -> bool {
        let held = Seq::new(self.nodes.len(), |x: int| self.nodes[x].data);
        &&& marks.len() == held.len() + later.len()
        &&& data == sum(g, self.identity, marked_of(held + later, marks, self.identity))
        &&& marks[n as int]
        &&& forall|c: usize| #[trigger] self.heard(c, n) ==> marks[c as int]
        &&& forall|x: usize|
            self.has(x) && x != n && !(#[trigger] self.node(x)).ancestors.contains(n)
                ==> !marks[x as int]
    }
}

/// No event of a run begins a read, or overwrites the data of `n` or of a node below it.
pub open spec fn only_adds_within<T: Clone>(
    start: CrewState<T>,
    g: spec_fn(T, T) -> T,
    run: Seq<Event<T>>,
    n: usize,
) -> bool
    decreases run.len(),
{
    run.len() == 0 || {
        &&& only_adds_within(start, g, run.drop_last(), n)
        &&& match run.last() {
            Event::Read(j, m) => false,
            Event::Overwrite(j, m, x) => {
                let tree = start.ran(g, run.drop_last()).tree;
                m != n && !tree.node(m).ancestors.contains(n)
            },
            _ => true,
        }
    }
}

// ---------------------------------------------------------------------------
// What is ahead of a walk
// ---------------------------------------------------------------------------

impl<T> TreeState<T> {
    /// As the flags are now, the walk will come to the flag of `p`.
    spec fn comes_to(self, walk: WalkState<usize, T>, p: usize) -> bool
        decreases p,
    {
        if p == walk.origin {
            walk.frames.len() == 0 && walk.stage is Enter
        } else {
            let f = self.father(p);
            ||| walk.will_enter(f, p)
            ||| f < p && self.node(f).subtree_dirty && self.comes_to(walk, f)
        }
    }

    /// As the flags are now, the walk will come to the dirty bit of `x`.
    spec fn comes_by(self, walk: WalkState<usize, T>, x: usize) -> bool {
        let f = self.father(x);
        ||| walk.will_check(f, x)
        ||| self.node(f).subtree_dirty && self.comes_to(walk, f)
    }

    /// What is at `p` is at its end, or will be taken there by the walk.
    spec fn carries(self, walk: WalkState<usize, T>, p: int) -> bool {
        ||| p == walk.origin
        ||| p == -1
        ||| {
            let x = p as usize;
            &&& 0 <= p < self.nodes.len()
            &&& {
                ||| walk.will_deliver(x)
                ||| self.under(x, walk.origin) && self.node(x).dirty && self.comes_by(walk, x)
            }
        }
    }

    /// The deeper a walk is, the younger the nodes it is inside of.
    proof fn lemma_places_rise(self, walk: WalkState<usize, T>, a: int, b: int)
        requires
            self.shaped(),
            self.vouches(walk),
            self.has(walk.origin),
            0 <= a < b <= walk.frames.len(),
            walk.frames[b - 1].busy(),
        ensures
            walk.place(a) < walk.place(b),
        decreases b,
    {
        let s = walk.frames[b - 1].sons[walk.frames[b - 1].at as int];
        assert(self.has(s) && 0 < s && self.father(s) == walk.place(b - 1));
        assert(self.descends(s));
        if a < b - 1 {
            assert(walk.frames[b - 2].busy());
            self.lemma_places_rise(walk, a, b - 1);
        }
    }

    /// At its start everything that is announced is ahead.
    proof fn lemma_all_ahead(self, walk: WalkState<usize, T>, c: usize, p: usize)
        requires
            self.shaped(),
            self.has(c),
            walk.frames.len() == 0,
            walk.stage is Enter,
            self.heard(c, walk.origin),
            self.under(c, p),
            self.within(p, walk.origin),
        ensures
            self.comes_to(walk, p),
            self.node(p).subtree_dirty,
        decreases p,
    {
        let n = walk.origin;
        assert(self.node(c).ancestors.contains(p));
        if p != n {
            let i = self.node(c).ancestors.index_of(p);
            self.lemma_ancestor(c, i);
            self.lemma_under_step(p, n);
            assert(self.descends(p));
            let f = self.father(p);
            self.lemma_under_step(p, f);
            self.lemma_under_trans(c, p, f);
            self.lemma_all_ahead(walk, c, f);
        }
    }

    /// At its end nothing is ahead.
    proof fn lemma_nothing_ahead(self, walk: WalkState<usize, T>, p: usize)
        requires
            walk.frames.len() == 0,
            walk.stage is Done,
        ensures
            !self.comes_to(walk, p),
        decreases p,
    {
        if p != walk.origin && self.father(p) < p {
            self.lemma_nothing_ahead(walk, self.father(p));
        }
    }

    /// Others raise flags and lower none.
    proof fn lemma_still_comes(self, new: Self, walk: WalkState<usize, T>, p: usize)
        requires
            self.shaped(),
            self.has(p),
            self.comes_to(walk, p),
            self.within(p, walk.origin),
            forall|x: usize|
                self.has(x) ==> {
                    &&& (#[trigger] new.node(x)).ancestors == self.node(x).ancestors
                    &&& self.node(x).subtree_dirty ==> new.node(x).subtree_dirty
                },
        ensures
            new.comes_to(walk, p),
        decreases p,
    {
        if p != walk.origin {
            self.lemma_under_step(p, walk.origin);
            assert(self.descends(p));
            let f = self.father(p);
            assert(new.node(p).ancestors == self.node(p).ancestors);
            assert(new.father(p) == f);
            if !walk.will_enter(f, p) {
                assert(self.node(f).subtree_dirty ==> new.node(f).subtree_dirty);
                self.lemma_still_comes(new, walk, f);
            }
        }
    }

    /// What is carried stays carried while others work.
    proof fn lemma_still_carries(self, new: Self, walk: WalkState<usize, T>, p: int)
        requires
            self.shaped(),
            self.nodes.len() <= new.nodes.len(),
            self.carries(walk, p),
            forall|x: usize|
                self.has(x) ==> {
                    &&& (#[trigger] new.node(x)).ancestors == self.node(x).ancestors
                    &&& self.node(x).subtree_dirty ==> new.node(x).subtree_dirty
                    &&& self.node(x).dirty ==> new.node(x).dirty
                },
        ensures
            new.carries(walk, p),
    {
        let x = p as usize;
        if p != walk.origin && p != -1 && !walk.will_deliver(x) {
            self.lemma_under_step(x, walk.origin);
            assert(self.descends(x));
            let f = self.father(x);
            assert(new.node(x).ancestors == self.node(x).ancestors);
            assert(new.node(x).dirty);
            if !walk.will_check(f, x) {
                assert(self.node(f).subtree_dirty ==> new.node(f).subtree_dirty);
                self.lemma_still_comes(new, walk, f);
            }
        }
    }

    /// A flag that is ahead of a walk is ahead of it after a step, until it is lowered.
    proof fn lemma_next_comes(self, g: spec_fn(T, T) -> T, fresh: T, walk: WalkState<usize, T>, p: usize)
        requires
            self.shaped(),
            self.held(walk.origin),
            self.vouches(walk),
            !(walk.stage is Done),
            self.has(p),
            self.linked(p),
            self.within(p, walk.origin),
            self.comes_to(walk, p),
            walk.stage is Enter ==> p != walk.place(walk.frames.len() as int),
        ensures
            ({
                let (new, found) = self.touched(g, fresh, walk.deed());
                new.comes_to(walk.next(found), p)
            }),
        decreases p,
    {
        let (new, found) = self.touched(g, fresh, walk.deed());
        self.lemma_touched(g, fresh, walk);
        assert(new.node(p).ancestors == self.node(p).ancestors);
        assert(walk.next(found).origin == walk.origin);
        if p != walk.origin {
            self.lemma_under_step(p, walk.origin);
            self.lemma_linked_up(p);
            assert(self.descends(p));
            let f = self.father(p);
            if walk.will_enter(f, p) {
                if walk.stage is List && walk.place(walk.frames.len() - 1) == f {
                    assert(self.node(f).sons.contains(p));
                }
                walk.lemma_next_enters(found, f, p);
            } else if walk.stage is Enter && f == walk.place(walk.frames.len() as int) {
                walk.lemma_entered(found, p);
            } else {
                self.lemma_next_comes(g, fresh, walk, f);
                self.lemma_flag_stays(g, fresh, walk, f);
            }
        }
    }

    /// Only the flag that is entered goes down.
    proof fn lemma_flag_stays(self, g: spec_fn(T, T) -> T, fresh: T, walk: WalkState<usize, T>, f: usize)
        requires
            self.shaped(),
            self.held(walk.origin),
            self.vouches(walk),
            !(walk.stage is Done),
            self.has(f),
            walk.stage is Enter ==> f != walk.place(walk.frames.len() as int),
        ensures
            self.touched(g, fresh, walk.deed()).0.node(f).subtree_dirty
                == self.node(f).subtree_dirty,
    {
        if walk.stage is Enter || walk.stage is Take {
            self.lemma_place(walk, walk.frames.len() as int);
        } else {
            self.lemma_place(walk, walk.frames.len() - 1);
        }
    }
}

// ---------------------------------------------------------------------------
// Where the deltas are
// ---------------------------------------------------------------------------

/// The values that are at `place`, and the identity in place of the others.
spec fn found_at<T>(values: Seq<T>, places: Seq<int>, place: int, identity: T) -> Seq<T> {
    Seq::new(
        values.len(),
        |k: int|
            if places[k] == place {
                values[k]
            } else {
                identity
            },
    )
}

/// The places after everything at one of them was moved to another.
spec fn moved(places: Seq<int>, from: int, to: int) -> Seq<int> {
    Seq::new(
        places.len(),
        |k: int|
            if places[k] == from {
                to
            } else {
                places[k]
            },
    )
}

impl<T> CrewState<T> {
    /// The values are where the places say: at a node, or at `-1`, the hand of worker
    /// `i`, or elsewhere. What a node at or below `n` holds is what is there together.
    spec fn tracks(
        self,
        g: spec_fn(T, T) -> T,
        i: int,
        n: usize,
        values: Seq<T>,
        places: Seq<int>,
    ) -> bool {
        let e = self.tree.identity;
        let walk = self.tasks[i]->Read_0;
        &&& places.len() == values.len()
        &&& forall|k: int| 0 <= k < places.len() ==> #[trigger] places[k] < self.tree.nodes.len()
        &&& !(walk.stage is Fold) ==> forall|k: int|
            0 <= k < places.len() ==> #[trigger] places[k] != -1
        &&& walk.stage matches Stage::Fold(delta) ==> delta == sum(
            g,
            e,
            found_at(values, places, -1, e),
        )
        &&& forall|x: usize|
            self.tree.has(x) && #[trigger] self.tree.within(x, n) ==> self.tree.node(x).data
                == sum(g, e, found_at(values, places, x as int, e))
    }

    /// Worker `i` is on its way with a read of `n`, and nobody else reads.
    spec fn sole_reader(self, i: int, n: usize) -> bool {
        &&& self.employs(i)
        &&& self.tasks[i] is Read
        &&& self.tasks[i]->Read_0.origin == n
        &&& forall|j: int| self.employs(j) && j != i ==> !(#[trigger] self.tasks[j] is Read)
    }

    /// Where the values are after the next step of worker `i`.
    spec fn next_places(self, i: int, places: Seq<int>) -> Seq<int> {
        let walk = self.tasks[i]->Read_0;
        if walk.stage is Take {
            moved(places, walk.top().current() as int, -1)
        } else if walk.stage is Fold {
            moved(places, -1, walk.place(walk.frames.len() - 1) as int)
        } else {
            places
        }
    }
}

/// What is at two places together.
proof fn lemma_found_together<T>(
    g: spec_fn(T, T) -> T,
    e: T,
    values: Seq<T>,
    places: Seq<int>,
    from: int,
    to: int,
)
    requires
        commutative_monoid(g, e),
        places.len() == values.len(),
        from != to,
    ensures
        sum(g, e, found_at(values, moved(places, from, to), to, e)) == g(
            sum(g, e, found_at(values, places, to, e)),
            sum(g, e, found_at(values, places, from, e)),
        ),
        sum(g, e, found_at(values, moved(places, from, to), from, e)) == e,
        forall|p: int|
            p != from && p != to ==> #[trigger] found_at(values, moved(places, from, to), p, e)
                == found_at(values, places, p, e),
{
    let a = found_at(values, places, to, e);
    let b = found_at(values, places, from, e);
    let c = found_at(values, moved(places, from, to), to, e);
    assert forall|k: int| 0 <= k < a.len() implies #[trigger] c[k] == g(a[k], b[k]) by {
        lemma_identity(g, e, values[k]);
        lemma_identity(g, e, e);
    }
    lemma_sum_zip(g, e, a, b, c);
    lemma_sum_blank(g, e, found_at(values, moved(places, from, to), from, e));
    assert forall|p: int| p != from && p != to implies #[trigger] found_at(
        values,
        moved(places, from, to),
        p,
        e,
    ) == found_at(values, places, p, e) by {
        assert(found_at(values, moved(places, from, to), p, e) =~= found_at(values, places, p, e));
    }
}

impl<T: Clone> CrewState<T> {
    /// A step of the reader moves values, and the places follow.
    proof fn lemma_step_tracks(
        self,
        g: spec_fn(T, T) -> T,
        i: int,
        n: usize,
        values: Seq<T>,
        places: Seq<int>,
    )
        requires
            self.sound(),
            self.sole_reader(i, n),
            !(self.tasks[i]->Read_0.stage is Done),
            self.tracks(g, i, n, values, places),
            commutative_monoid(g, self.tree.identity),
        ensures
            self.stepped(g, self.tree.identity, i).tracks(
                g,
                i,
                n,
                values,
                self.next_places(i, places),
            ),
    {
        let tree = self.tree;
        let e = tree.identity;
        let walk = self.tasks[i]->Read_0;
        assert(tree.admits(self.tasks[i]));
        let new = self.stepped(g, e, i);
        let (after, found) = tree.touched(g, e, walk.deed());
        tree.lemma_touched(g, e, walk);
        let last = walk.frames.len() - 1;
        let then = self.next_places(i, places);
        assert(new.tasks[i] == TaskState::Read(walk.next(found)));
        assert(new.tree == after);
        assert forall|x: usize| tree.has(x) implies #[trigger] after.within(x, n) == tree.within(
            x,
            n,
        ) by {
            assert(after.node(x).ancestors == tree.node(x).ancestors);
        }
        if walk.stage is Take {
            let c = walk.top().current();
            tree.lemma_within_origin(walk, walk.frames.len() as int);
            assert(tree.within(c, n));
            lemma_found_together(g, e, values, places, c as int, -1);
            let hand = found_at(values, places, -1, e);
            assert forall|k: int| 0 <= k < hand.len() implies #[trigger] hand[k] == e by {
                assert(places[k] != -1);
            }
            lemma_sum_blank(g, e, hand);
            lemma_identity(g, e, tree.node(c).data);
            assert forall|x: usize| after.has(x) && #[trigger] after.within(x, n) implies after.node(
                x,
            ).data == sum(g, e, found_at(values, then, x as int, e)) by {
                assert(tree.within(x, n));
            }
        } else if walk.stage is Fold {
            let p = walk.place(last);
            tree.lemma_within_origin(walk, last);
            assert(tree.within(p, n));
            lemma_found_together(g, e, values, places, -1, p as int);
            assert forall|x: usize| after.has(x) && #[trigger] after.within(x, n) implies after.node(
                x,
            ).data == sum(g, e, found_at(values, then, x as int, e)) by {
                assert(tree.within(x, n));
            }
        } else {
            if walk.stage is Enter {
                tree.lemma_place(walk, walk.frames.len() as int);
            } else {
                tree.lemma_place(walk, last);
            }
            assert forall|x: usize| after.has(x) && #[trigger] after.within(x, n) implies after.node(
                x,
            ).data == sum(g, e, found_at(values, then, x as int, e)) by {
                assert(tree.within(x, n));
            }
        }
    }

    /// A step of the reader carries on what it carried.
    proof fn lemma_step_carries(
        self,
        g: spec_fn(T, T) -> T,
        i: int,
        n: usize,
        places: Seq<int>,
        k: int,
    )
        requires
            self.sound(),
            self.sole_reader(i, n),
            !(self.tasks[i]->Read_0.stage is Done),
            0 <= k < places.len(),
            places[k] < self.tree.nodes.len(),
            !(self.tasks[i]->Read_0.stage is Fold) ==> places[k] != -1,
            self.tree.carries(self.tasks[i]->Read_0, places[k]),
        ensures
            ({
                let new = self.stepped(g, self.tree.identity, i);
                new.tree.carries(new.tasks[i]->Read_0, self.next_places(i, places)[k])
            }),
            places[k] == n ==> self.next_places(i, places)[k] == n,
    {
        let tree = self.tree;
        let e = tree.identity;
        let walk = self.tasks[i]->Read_0;
        assert(tree.admits(self.tasks[i]));
        let new = self.stepped(g, e, i);
        let (after, found) = tree.touched(g, e, walk.deed());
        tree.lemma_touched(g, e, walk);
        assert(new.tasks[i] == TaskState::Read(walk.next(found)));
        assert(new.tree == after);
        let next = walk.next(found);
        assert(next.origin == n);
        let p = places[k];
        let x = p as usize;
        let last = walk.frames.len() - 1;
        if walk.stage is Take {
            tree.lemma_places_rise(walk, 0, walk.frames.len() as int);
        }
        if p == n {
        } else if p == -1 {
            walk.lemma_folded_delivers(found);
            tree.lemma_place(walk, last);
        } else if walk.stage is Take && x == walk.top().current() {
        } else if walk.will_deliver(x) {
            walk.lemma_next_delivers(found, x);
        } else {
            assert(tree.under(x, n) && tree.node(x).dirty && tree.comes_by(walk, x));
            assert(tree.linked(x)) by {
                if !tree.linked(x) {
                    assert(tree.spent(x));
                }
            }
            tree.lemma_under_step(x, n);
            tree.lemma_linked_up(x);
            assert(tree.descends(x));
            let f = tree.father(x);
            assert(after.node(x).ancestors == tree.node(x).ancestors);
            assert(after.node(x).dirty) by {
                if walk.stage is Enter || walk.stage is Take {
                    tree.lemma_place(walk, walk.frames.len() as int);
                } else {
                    tree.lemma_place(walk, last);
                }
            }
            if walk.stage is Dirty && x == walk.top().current() {
                assert(next.stage is Take);
                assert(next.will_deliver(x));
            } else if walk.will_check(f, x) {
                if walk.stage is List && walk.place(last) == f {
                    assert(tree.node(f).sons.contains(x));
                }
                walk.lemma_next_checks(found, f, x);
            } else if walk.stage is Enter && f == walk.place(walk.frames.len() as int) {
                walk.lemma_entered(found, x);
            } else {
                tree.lemma_next_comes(g, e, walk, f);
                tree.lemma_flag_stays(g, e, walk, f);
            }
        }
    }
}

/// One more value is at one place more.
proof fn lemma_found_more<T>(
    g: spec_fn(T, T) -> T,
    e: T,
    values: Seq<T>,
    places: Seq<int>,
    value: T,
    place: int,
    p: int,
)
    requires
        commutative_monoid(g, e),
        places.len() == values.len(),
    ensures
        sum(g, e, found_at(values.push(value), places.push(place), p, e)) == if p == place {
            g(sum(g, e, found_at(values, places, p, e)), value)
        } else {
            sum(g, e, found_at(values, places, p, e))
        },
{
    let more = found_at(values.push(value), places.push(place), p, e);
    assert(more.drop_last() =~= found_at(values, places, p, e));
    lemma_identity(g, e, sum(g, e, found_at(values, places, p, e)));
}

impl<T: Clone> CrewState<T> {
    /// What others do to flags, handles and lists moves no value. A new node holds none.
    proof fn lemma_others_track(
        self,
        new: Self,
        g: spec_fn(T, T) -> T,
        i: int,
        n: usize,
        values: Seq<T>,
        places: Seq<int>,
    )
        requires
            self.tracks(g, i, n, values, places),
            commutative_monoid(g, self.tree.identity),
            new.tasks[i] == self.tasks[i],
            new.tree.identity == self.tree.identity,
            self.tree.nodes.len() <= new.tree.nodes.len() <= usize::MAX,
            forall|x: usize|
                self.tree.has(x) ==> {
                    &&& (#[trigger] new.tree.node(x)).ancestors == self.tree.node(x).ancestors
                    &&& self.tree.within(x, n) ==> new.tree.node(x).data == self.tree.node(x).data
                },
            forall|x: usize|
                new.tree.has(x) && !self.tree.has(x) ==> (#[trigger] new.tree.node(x)).data
                    == self.tree.identity,
        ensures
            new.tracks(g, i, n, values, places),
    {
        let e = self.tree.identity;
        assert forall|x: usize| new.tree.has(x) && #[trigger] new.tree.within(x, n) implies
            new.tree.node(x).data == sum(g, e, found_at(values, places, x as int, e)) by {
            if self.tree.has(x) {
                assert(new.tree.node(x).ancestors == self.tree.node(x).ancestors);
                assert(self.tree.within(x, n));
            } else {
                let there = found_at(values, places, x as int, e);
                assert forall|k: int| 0 <= k < there.len() implies #[trigger] there[k] == e by {
                    assert(places[k] < self.tree.nodes.len());
                }
                lemma_sum_blank(g, e, there);
                assert(new.tree.node(x).data == e);
            }
        }
    }

    /// What others write is one more value.
    proof fn lemma_write_tracks(
        self,
        new: Self,
        g: spec_fn(T, T) -> T,
        i: int,
        n: usize,
        values: Seq<T>,
        places: Seq<int>,
        m: usize,
        x: T,
        place: int,
    )
        requires
            self.tracks(g, i, n, values, places),
            commutative_monoid(g, self.tree.identity),
            new.tasks[i] == self.tasks[i],
            new.tree.identity == self.tree.identity,
            new.tree.nodes.len() == self.tree.nodes.len(),
            self.tree.has(m),
            forall|y: usize|
                self.tree.has(y) ==> {
                    &&& (#[trigger] new.tree.node(y)).ancestors == self.tree.node(y).ancestors
                    &&& y != m ==> new.tree.node(y).data == self.tree.node(y).data
                },
            self.tree.within(m, n) ==> place == m && new.tree.node(m).data == g(
                self.tree.node(m).data,
                x,
            ),
            !self.tree.within(m, n) ==> place == -2,
        ensures
            new.tracks(g, i, n, values.push(x), places.push(place)),
    {
        let e = self.tree.identity;
        let then = places.push(place);
        lemma_found_more(g, e, values, places, x, place, -1);
        assert forall|y: usize| new.tree.has(y) && #[trigger] new.tree.within(y, n) implies
            new.tree.node(y).data == sum(g, e, found_at(values.push(x), then, y as int, e)) by {
            assert(new.tree.node(y).ancestors == self.tree.node(y).ancestors);
            assert(self.tree.within(y, n));
            lemma_found_more(g, e, values, places, x, place, y as int);
        }
    }

    /// What holds while a sole reader is on its way: the values are tracked, what `n`
    /// held is at `n`, and what was heard when the read began is carried.
    spec fn follows(
        self,
        start: TreeState<T>,
        g: spec_fn(T, T) -> T,
        i: int,
        n: usize,
        values: Seq<T>,
        places: Seq<int>,
    ) -> bool {
        let walk = self.tasks[i]->Read_0;
        &&& self.sound()
        &&& self.sole_reader(i, n)
        &&& self.tree.identity == start.identity
        &&& self.tracks(g, i, n, values, places)
        &&& start.nodes.len() <= places.len()
        &&& places[n as int] == n
        &&& forall|c: usize| #[trigger]
            start.heard(c, n) ==> self.tree.carries(walk, places[c as int])
        &&& forall|x: usize|
            start.has(x) && !#[trigger] start.within(x, n) ==> places[x as int] == -2
    }

    /// What others do keeps what a sole reader carries.
    proof fn lemma_others_follow(
        self,
        new: Self,
        start: TreeState<T>,
        g: spec_fn(T, T) -> T,
        i: int,
        j: int,
        n: usize,
        values: Seq<T>,
        places: Seq<int>,
        more: Seq<T>,
        then: Seq<int>,
    )
        requires
            self.follows(start, g, i, n, values, places),
            start.has(n),
            new.sound(),
            self.employs(j),
            i != j,
            new.tasks == self.tasks.update(j, new.tasks[j]),
            !(new.tasks[j] is Read),
            new.tree.identity == self.tree.identity,
            self.tree.nodes.len() <= new.tree.nodes.len(),
            new.tracks(g, i, n, more, then),
            places.len() <= then.len(),
            forall|k: int| 0 <= k < places.len() ==> then[k] == #[trigger] places[k],
            forall|x: usize|
                self.tree.has(x) ==> {
                    &&& (#[trigger] new.tree.node(x)).ancestors == self.tree.node(x).ancestors
                    &&& self.tree.node(x).subtree_dirty ==> new.tree.node(x).subtree_dirty
                    &&& self.tree.node(x).dirty ==> new.tree.node(x).dirty
                },
        ensures
            new.follows(start, g, i, n, more, then),
    {
        let walk = self.tasks[i]->Read_0;
        assert(new.tasks[i] == self.tasks[i]);
        assert(then[n as int] == places[n as int]);
        assert forall|k: int| new.employs(k) && k != i implies !(#[trigger] new.tasks[k] is Read) by {
            if k != j {
                assert(new.tasks[k] == self.tasks[k]);
            }
        }
        assert forall|c: usize| #[trigger] start.heard(c, n) implies new.tree.carries(
            walk,
            then[c as int],
        ) by {
            assert(then[c as int] == places[c as int]);
            self.tree.lemma_still_carries(new.tree, walk, places[c as int]);
        }
        assert forall|x: usize| start.has(x) && !#[trigger] start.within(x, n) implies
            then[x as int] == -2 by {
            assert(then[x as int] == places[x as int]);
        }
    }

    /// A read that is begun with no other reader about has everything heard before it.
    proof fn lemma_begun_follows(self, g: spec_fn(T, T) -> T, i: int, n: usize) -> (places: Seq<int>)
        requires
            self.sound(),
            self.employs(i),
            self.tasks[i] is Idle,
            self.tree.held(n),
            forall|j: int| self.employs(j) ==> !(#[trigger] self.tasks[j] is Read),
            commutative_monoid(g, self.tree.identity),
        ensures
            self.began_read(i, n).follows(self.tree, g, i, n, self.tree.holdings(), places),
            places.len() == self.tree.nodes.len(),
    {
        let tree = self.tree;
        let e = tree.identity;
        let new = self.began_read(i, n);
        let values = tree.holdings();
        let places = Seq::new(
            tree.nodes.len(),
            |x: int|
                if tree.within(x as usize, n) {
                    x
                } else {
                    -2int
                },
        );
        self.law_a_read_may_begin(i, n);
        let walk = new.tasks[i]->Read_0;
        assert forall|j: int| new.employs(j) && j != i implies !(#[trigger] new.tasks[j] is Read) by {
            assert(new.tasks[j] == self.tasks[j]);
        }
        assert forall|x: usize| tree.has(x) && #[trigger] tree.within(x, n) implies tree.node(x).data
            == sum(g, e, found_at(values, places, x as int, e)) by {
            lemma_sum_single(g, e, found_at(values, places, x as int, e), x as int);
        }
        assert forall|c: usize| #[trigger] tree.heard(c, n) implies tree.carries(
            walk,
            places[c as int],
        ) by {
            assert(tree.under(c, n));
            tree.lemma_under_step(c, n);
            assert(tree.descends(c));
            let f = tree.father(c);
            tree.lemma_under_step(c, f);
            tree.lemma_all_ahead(walk, c, f);
            assert(tree.comes_by(walk, c));
        }
        assert(new.tracks(g, i, n, values, places));
        places
    }

    /// A run hires nobody and lets nobody go.
    proof fn lemma_same_staff(self, g: spec_fn(T, T) -> T, run: Seq<Event<T>>)
        requires
            self.allows_run(g, run),
        ensures
            self.ran(g, run).tasks.len() == self.tasks.len(),
        decreases run.len(),
    {
        if run.len() > 0 {
            self.lemma_same_staff(g, run.drop_last());
        }
    }

    /// Whatever happens next, the deltas are followed.
    proof fn lemma_run_follows(
        self,
        g: spec_fn(T, T) -> T,
        i: int,
        n: usize,
        run: Seq<Event<T>>,
    ) -> (places: Seq<int>)
        requires
            self.sound(),
            self.employs(i),
            self.tasks[i] is Idle,
            self.tree.held(n),
            forall|j: int| self.employs(j) ==> !(#[trigger] self.tasks[j] is Read),
            commutative_monoid(g, self.tree.identity),
            self.began_read(i, n).allows_run(g, run),
            only_adds_within(self.began_read(i, n), g, run, n),
            self.began_read(i, n).ran(g, run).tasks[i] is Read,
        ensures
            self.began_read(i, n).ran(g, run).follows(
                self.tree,
                g,
                i,
                n,
                self.tree.holdings() + added(run),
                places,
            ),
        decreases run.len(),
    {
        let start = self.began_read(i, n);
        let base = self.tree.holdings();
        if run.len() == 0 {
            let places = self.lemma_begun_follows(g, i, n);
            assert(base + added(run) =~= base);
            places
        } else {
            let past = run.drop_last();
            let mid = start.ran(g, past);
            let new = start.ran(g, run);
            let e = self.tree.identity;
            self.law_a_read_may_begin(i, n);
            start.law_every_run_keeps_the_crew_sound(g, past);
            start.law_every_run_keeps_the_crew_sound(g, run);
            assert(new == mid.after(g, run.last()));
            start.lemma_same_staff(g, past);
            assert(mid.tasks[i] is Read);
            let places = self.lemma_run_follows(g, i, n, past);
            let values = base + added(past);
            match run.last() {
                Event::Step(j) => {
                    if j == i {
                        mid.lemma_own_step_follows(self.tree, g, i, n, values, places);
                        mid.next_places(i, places)
                    } else {
                        assert(mid.tree.admits(mid.tasks[j]));
                        if let TaskState::Mark(m, climb) = mid.tasks[j] {
                            mid.tree.lemma_ancestor(m, climb.next as int);
                        }
                        mid.lemma_others_track(new, g, i, n, values, places);
                        mid.lemma_others_follow(
                            new, self.tree, g, i, j, n, values, places, values, places,
                        );
                        places
                    }
                },
                Event::Add(j, m, x) => {
                    let place = if mid.tree.within(m, n) {
                        m as int
                    } else {
                        -2int
                    };
                    mid.lemma_write_tracks(new, g, i, n, values, places, m, x, place);
                    assert(values.push(x) =~= base + added(run));
                    mid.lemma_others_follow(
                        new, self.tree, g, i, j, n, values, places, values.push(x), places.push(place),
                    );
                    places.push(place)
                },
                Event::Overwrite(j, m, x) => {
                    mid.lemma_write_tracks(new, g, i, n, values, places, m, x, -2);
                    assert(values.push(x) =~= base + added(run));
                    mid.lemma_others_follow(
                        new, self.tree, g, i, j, n, values, places, values.push(x), places.push(-2),
                    );
                    places.push(-2)
                },
                Event::Release(j, m) => {
                    mid.lemma_others_track(new, g, i, n, values, places);
                    mid.lemma_others_follow(
                        new, self.tree, g, i, j, n, values, places, values, places,
                    );
                    places
                },
                Event::Share(j, m) => {
                    assert(new.tasks =~= mid.tasks.update(j, new.tasks[j]));
                    mid.lemma_others_track(new, g, i, n, values, places);
                    mid.lemma_others_follow(
                        new, self.tree, g, i, j, n, values, places, values, places,
                    );
                    places
                },
                Event::Register(j, m) => {
                    assert(new.tasks =~= mid.tasks.update(j, new.tasks[j]));
                    mid.lemma_others_track(new, g, i, n, values, places);
                    mid.lemma_others_follow(
                        new, self.tree, g, i, j, n, values, places, values, places,
                    );
                    places
                },
                Event::Read(j, m) => places,
            }
        }
    }

    /// A step of the reader itself follows the deltas.
    proof fn lemma_own_step_follows(
        self,
        start: TreeState<T>,
        g: spec_fn(T, T) -> T,
        i: int,
        n: usize,
        values: Seq<T>,
        places: Seq<int>,
    )
        requires
            self.follows(start, g, i, n, values, places),
            start.has(n),
            commutative_monoid(g, self.tree.identity),
            self.stepped(g, self.tree.identity, i).tasks[i] is Read,
        ensures
            self.stepped(g, self.tree.identity, i).follows(
                start,
                g,
                i,
                n,
                values,
                self.next_places(i, places),
            ),
    {
        let e = self.tree.identity;
        let new = self.stepped(g, e, i);
        let walk = self.tasks[i]->Read_0;
        let then = self.next_places(i, places);
        assert(self.tree.admits(self.tasks[i]));
        self.law_every_step_keeps_the_crew_sound(g, e, i);
        self.lemma_step_tracks(g, i, n, values, places);
        self.tree.lemma_touched(g, e, walk);
        assert forall|j: int| new.employs(j) && j != i implies !(#[trigger] new.tasks[j] is Read) by {
            assert(new.tasks[j] == self.tasks[j]);
        }
        assert(self.tree.carries(walk, places[n as int]));
        self.lemma_step_carries(g, i, n, places, n as int);
        assert forall|c: usize| #[trigger] start.heard(c, n) implies new.tree.carries(
            new.tasks[i]->Read_0,
            then[c as int],
        ) by {
            assert(start.has(c));
            assert(self.tree.carries(walk, places[c as int]));
            self.lemma_step_carries(g, i, n, places, c as int);
        }
        assert forall|x: usize| start.has(x) && !#[trigger] start.within(x, n) implies
            then[x as int] == -2 by {
            assert(places[x as int] == -2);
        }
    }

    /// Take any crew in which nobody reads, whatever else its workers have in hand, and
    /// let one of them begin a read of `n`. Whatever the others do meanwhile, in whatever
    /// order the steps come, as long as nobody else reads and nobody overwrites anything
    /// within `n`: when the read is at its end, what it returns is made up of whole deltas
    /// that were held within `n` when it began or were written since, each one counted
    /// once, and among them are what `n` held and every delta that was heard at `n` when
    /// the read began.
    pub proof fn law_a_read_takes_in_all_it_heard(
        self,
        g: spec_fn(T, T) -> T,
        i: int,
        n: usize,
        run: Seq<Event<T>>,
    )
        requires
            self.sound(),
            self.employs(i),
            self.tasks[i] is Idle,
            self.tree.held(n),
            forall|j: int| self.employs(j) ==> !(#[trigger] self.tasks[j] is Read),
            commutative_monoid(g, self.tree.identity),
            self.began_read(i, n).allows_run(g, run),
            only_adds_within(self.began_read(i, n), g, run, n),
            self.began_read(i, n).ran(g, run).tasks[i] is Read,
            self.began_read(i, n).ran(g, run).tasks[i]->Read_0.stage is Done,
        ensures
            self.began_read(i, n).ran(g, run).tasks[i]->Read_0.origin == n,
            exists|marks: Seq<bool>| #[trigger]
                self.tree.accounts_for(
                    g,
                    n,
                    added(run),
                    marks,
                    self.began_read(i, n).ran(g, run).tree.node(n).data,
                ),
    {
        let e = self.tree.identity;
        let places = self.lemma_run_follows(g, i, n, run);
        let end = self.began_read(i, n).ran(g, run);
        let walk = end.tasks[i]->Read_0;
        let values = self.tree.holdings() + added(run);
        let marks = Seq::new(values.len(), |k: int| places[k] == n);
        assert(end.tree.admits(end.tasks[i]));
        assert(marked_of(values, marks, e) =~= found_at(values, places, n as int, e));
        assert(end.tree.has(n) && end.tree.within(n, n));
        assert forall|c: usize| #[trigger] self.tree.heard(c, n) implies marks[c as int] by {
            assert(end.tree.carries(walk, places[c as int]));
            assert(places[c as int] != -1);
            let x = places[c as int] as usize;
            if places[c as int] != n {
                assert(!walk.will_deliver(x));
                end.tree.lemma_nothing_ahead(walk, end.tree.father(x));
                assert(false);
            }
        }
        assert forall|x: usize|
            self.tree.has(x) && x != n && !(#[trigger] self.tree.node(x)).ancestors.contains(
                n,
            ) implies !marks[x as int] by {
            assert(!self.tree.within(x, n));
            assert(places[x as int] == -2);
        }
        assert(self.tree.accounts_for(g, n, added(run), marks, end.tree.node(n).data));
    }
}

// ---------------------------------------------------------------------------
// What is heard
// ---------------------------------------------------------------------------

/// A run of `k` steps of worker `i`, and nothing else.
pub open spec fn steps_of<T>(i: int, k: nat) -> Seq<Event<T>> {
    Seq::new(k, |j: int| Event::Step(i))
}

impl<T: Clone> CrewState<T> {
    /// A delta that was written is heard at `n` from the moment that no climb under way
    /// is about to raise a flag between the two that is still down: in a crew in which
    /// nobody reads, no other dirty node below `n` is passed over by a read of `n`.
    pub proof fn law_what_no_climb_holds_back_is_heard(self, c: usize, n: usize)
        requires
            self.sound(),
            self.tree.has(c),
            self.tree.node(c).ancestors.contains(n),
            self.tree.node(c).dirty,
            forall|j: int| self.employs(j) ==> !(#[trigger] self.tasks[j] is Read),
            forall|j: int|
                self.employs(j) && #[trigger] self.tasks[j] is Mark ==> {
                    let a = self.tree.node(
                        self.tasks[j]->Mark_0,
                    ).ancestors[self.tasks[j]->Mark_1.next as int];
                    self.tree.under(c, a) && self.tree.within(a, n) ==> self.tree.node(
                        a,
                    ).subtree_dirty
                },
        ensures
            self.tree.heard(c, n),
    {
        let tree = self.tree;
        assert(tree.under(c, n));
        assert(tree.linked(c)) by {
            if !tree.linked(c) {
                assert(tree.spent(c));
            }
        }
        assert forall|a: usize| #[trigger]
            tree.node(c).ancestors.contains(a) && (a == n || tree.node(a).ancestors.contains(
                n,
            )) implies tree.node(a).subtree_dirty by {
            assert(tree.under(c, a) && tree.within(a, n));
            self.lemma_announced_to(c, c, a, n);
        }
    }

    /// Below `n` every flag above something dirty is up.
    proof fn lemma_announced_to(self, c: usize, x: usize, a: usize, n: usize)
        requires
            self.sound(),
            self.tree.has(c),
            self.tree.has(x),
            self.tree.linked(x),
            self.tree.within(c, x),
            self.tree.under(x, a),
            self.tree.within(a, n),
            self.tree.node(x).dirty || self.tree.node(x).subtree_dirty,
            forall|j: int| self.employs(j) ==> !(#[trigger] self.tasks[j] is Read),
            forall|j: int|
                self.employs(j) && #[trigger] self.tasks[j] is Mark ==> {
                    let b = self.tree.node(
                        self.tasks[j]->Mark_0,
                    ).ancestors[self.tasks[j]->Mark_1.next as int];
                    self.tree.under(c, b) && self.tree.within(b, n) ==> self.tree.node(
                        b,
                    ).subtree_dirty
                },
        ensures
            self.tree.node(a).subtree_dirty,
        decreases x,
    {
        let tree = self.tree;
        tree.lemma_under_step(x, a);
        tree.lemma_linked_up(x);
        assert(tree.descends(x));
        let f = tree.father(x);
        tree.lemma_under_step(x, f);
        tree.lemma_under_trans(c, x, f);
        if f != a && a != n {
            tree.lemma_under_trans(f, a, n);
        }
        assert(tree.within(f, n));
        assert(tree.node(f).subtree_dirty) by {
            if !tree.node(f).subtree_dirty {
                if tree.node(x).dirty {
                    assert(self.dirt_seen_to(x));
                    let j = choose|j: int|
                        self.employs(j) && #[trigger] tree.attends_dirt(self.tasks[j], x);
                    assert(!(self.tasks[j] is Read));
                    assert(self.tasks[j] is Mark);
                } else {
                    assert(self.flag_seen_to(x));
                    let j = choose|j: int|
                        self.employs(j) && #[trigger] tree.attends_flag(self.tasks[j], x);
                    assert(!(self.tasks[j] is Read));
                    assert(self.tasks[j] is Mark);
                }
            }
        }
        if f != a {
            self.lemma_announced_to(c, f, a, n);
        }
    }

    /// A read may be begun while others are in the middle of their writes, and needs
    /// nobody to go on for its own end: its own steps lead it there, and what it returns
    /// then takes in what `n` held and every delta that was heard at `n`.
    pub proof fn law_a_read_amid_writes_ends_with_all_it_heard(
        self,
        g: spec_fn(T, T) -> T,
        i: int,
        n: usize,
    )
        requires
            self.sound(),
            self.employs(i),
            self.tasks[i] is Idle,
            self.tree.held(n),
            forall|j: int| self.employs(j) ==> !(#[trigger] self.tasks[j] is Read),
            commutative_monoid(g, self.tree.identity),
        ensures
            exists|k: nat, marks: Seq<bool>|
                {
                    &&& self.began_read(i, n).ran(g, #[trigger] steps_of(i, k)).tasks[i] is Read
                    &&& self.began_read(i, n).ran(g, steps_of(i, k)).tasks[i]->Read_0.stage is Done
                    &&& #[trigger] self.tree.accounts_for(
                        g,
                        n,
                        Seq::empty(),
                        marks,
                        self.began_read(i, n).ran(g, steps_of(i, k)).tree.node(n).data,
                    )
                },
    {
        let k = self.lemma_own_steps_end(g, i, n, 0);
        let run = steps_of::<T>(i, k);
        self.law_a_read_takes_in_all_it_heard(g, i, n, run);
        lemma_steps_add_nothing::<T>(i, k);
        let data = self.began_read(i, n).ran(g, run).tree.node(n).data;
        let marks = choose|marks: Seq<bool>| #[trigger]
            self.tree.accounts_for(g, n, added(run), marks, data);
        assert(self.tree.accounts_for(g, n, Seq::empty(), marks, data));
    }

    /// After `k` steps of its own, a read needs so many more to its end.
    proof fn lemma_own_steps_end(self, g: spec_fn(T, T) -> T, i: int, n: usize, k: nat) -> (end: nat)
        requires
            self.sound(),
            self.employs(i),
            self.tasks[i] is Idle,
            self.tree.held(n),
            self.began_read(i, n).allows_run(g, steps_of(i, k)),
            only_adds_within(self.began_read(i, n), g, steps_of(i, k), n),
            self.began_read(i, n).ran(g, steps_of(i, k)).tasks[i] is Read,
        ensures
            self.began_read(i, n).allows_run(g, steps_of(i, end)),
            only_adds_within(self.began_read(i, n), g, steps_of(i, end), n),
            self.began_read(i, n).ran(g, steps_of(i, end)).tasks[i] is Read,
            self.began_read(i, n).ran(g, steps_of(i, end)).tasks[i]->Read_0.stage is Done,
        decreases self.began_read(i, n).ran(g, steps_of(i, k)).steps_left(i),
    {
        let start = self.began_read(i, n);
        let mid = start.ran(g, steps_of(i, k));
        self.law_a_read_may_begin(i, n);
        start.law_every_run_keeps_the_crew_sound(g, steps_of(i, k));
        start.lemma_same_staff(g, steps_of(i, k));
        if mid.tasks[i]->Read_0.stage is Done {
            k
        } else {
            let more = steps_of::<T>(i, k + 1);
            assert(more.drop_last() =~= steps_of::<T>(i, k));
            assert(more.last() == Event::<T>::Step(i));
            mid.law_every_operation_comes_to_its_end(g, mid.tree.identity, i, i);
            self.lemma_own_steps_end(g, i, n, k + 1)
        }
    }
}

/// Steps write nothing.
proof fn lemma_steps_add_nothing<T>(i: int, k: nat)
    ensures
        added(steps_of::<T>(i, k)) == Seq::<T>::empty(),
    decreases k,
{
    if k > 0 {
        assert(steps_of::<T>(i, k).drop_last() =~= steps_of::<T>(i, (k - 1) as nat));
        lemma_steps_add_nothing::<T>(i, (k - 1) as nat);
    }
}

} // verus!
