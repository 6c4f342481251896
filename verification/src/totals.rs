//! What the tree adds up to.
//!
//! The total is everything written and not overwritten: what the root holds,
//! what every node still owes, and what workers have in hand between taking a
//! delta and folding it. Walks move values about; only writes change the total.
use vstd::prelude::*;

use crate::interleave::CrewState;
use crate::interleave::TaskState;
use crate::monoid::clones_as_itself;
use crate::monoid::commutative_monoid;
use crate::monoid::lemma_either_side;
use crate::monoid::lemma_identity;
use crate::monoid::lemma_sum_blank;
use crate::monoid::lemma_sum_fold_in;
use crate::monoid::lemma_sum_single;
use crate::monoid::lemma_sum_zip;
use crate::monoid::lemma_swap_last;
use crate::monoid::sum;
use crate::state::TreeState;
use crate::walk::Stage;
use crate::walk::WalkState;

verus! {

impl<T> TreeState<T> {
    /// The data of all nodes.
    pub open spec fn holdings(self) -> Seq<T> {
        Seq::new(self.nodes.len(), |x: int| self.nodes[x].data)
    }

    /// The data of all nodes together.
    pub open spec fn total(self, g: spec_fn(T, T) -> T) -> T {
        sum(g, self.identity, self.holdings())
    }
}

impl<T> TaskState<T> {
    /// The delta between the lock it was taken under and the one it will be
    /// folded under.
    pub open spec fn in_hand(self, identity: T) -> T {
        match self {
            TaskState::Read(walk) => match walk.stage {
                Stage::Fold(delta) => delta,
                _ => identity,
            },
            _ => identity,
        }
    }
}

impl<T> CrewState<T> {
    /// The deltas that the workers have in hand.
    pub open spec fn hands(self) -> Seq<T> {
        Seq::new(self.tasks.len(), |i: int| self.tasks[i].in_hand(self.tree.identity))
    }

    /// The data of all nodes and the deltas in hand together.
    pub open spec fn total(self, g: spec_fn(T, T) -> T) -> T {
        g(self.tree.total(g), sum(g, self.tree.identity, self.hands()))
    }

    /// The data of `n` and everything below it, and the deltas in hand, together.
    pub open spec fn subtotal(self, g: spec_fn(T, T) -> T, n: usize) -> T {
        g(self.tree.subtotal(g, n), sum(g, self.tree.identity, self.hands()))
    }

    /// Everything but the data of `n` together.
    pub open spec fn total_without(self, g: spec_fn(T, T) -> T, n: usize) -> T {
        let rest = self.tree.holdings().update(n as int, self.tree.identity);
        g(sum(g, self.tree.identity, rest), sum(g, self.tree.identity, self.hands()))
    }
}

// ---------------------------------------------------------------------------
// Steps conserve the total
// ---------------------------------------------------------------------------

impl<T: Clone> CrewState<T> {
    /// Whatever order the steps come in, they neither lose anything nor count
    /// anything twice: no step of any worker changes the total.
    pub proof fn law_steps_conserve_the_total(self, g: spec_fn(T, T) -> T, i: int)
        requires
            self.sound(),
            self.employs(i),
            commutative_monoid(g, self.tree.identity),
        ensures
            self.stepped(g, self.tree.identity, i).total(g) == self.total(g),
    {
        let tree = self.tree;
        let e = tree.identity;
        let new = self.stepped(g, e, i);
        assert(tree.admits(self.tasks[i]));
        let moves = match self.tasks[i] {
            TaskState::Read(walk) => walk.stage is Take || walk.stage is Fold,
            _ => false,
        };
        if moves {
            let walk = self.tasks[i]->Read_0;
            let last = walk.frames.len() - 1;
            let h = self.hands();
            let v = tree.holdings();
            if walk.stage is Take {
                let c = walk.top().current();
                assert(tree.has(walk.frames[last].sons[walk.frames[last].at as int]));
                let d = tree.node(c).data;
                let rest = v.update(c as int, e);
                assert(new.tree.holdings() =~= rest);
                lemma_identity(g, e, d);
                assert(rest.update(c as int, g(rest[c as int], d)) =~= v);
                lemma_sum_fold_in(g, e, rest, c as int, d);
                assert(h[i] == e);
                assert(new.hands() =~= h.update(i, g(h[i], d)));
                lemma_sum_fold_in(g, e, h, i, d);
                let sr = sum(g, e, rest);
                let sh = sum(g, e, h);
                lemma_either_side(g, e, sr, sh, d);
            } else {
                let p = walk.place(last);
                let d = walk.stage->Fold_0;
                tree.lemma_place(walk, last);
                assert(new.tree.holdings() =~= v.update(p as int, g(v[p as int], d)));
                lemma_sum_fold_in(g, e, v, p as int, d);
                let rest = h.update(i, e);
                assert(new.hands() =~= rest);
                lemma_identity(g, e, d);
                assert(rest.update(i, g(rest[i], d)) =~= h);
                lemma_sum_fold_in(g, e, rest, i, d);
                let sv = sum(g, e, v);
                let sr = sum(g, e, rest);
                lemma_either_side(g, e, sv, sr, d);
            }
        } else {
            self.lemma_nothing_moves(g, e, i);
        }
    }

    /// A step that neither takes nor folds leaves all values where they are.
    proof fn lemma_nothing_moves(self, g: spec_fn(T, T) -> T, fresh: T, i: int)
        requires
            self.employs(i),
            match self.tasks[i] {
                TaskState::Read(walk) => !(walk.stage is Take) && !(walk.stage is Fold),
                _ => true,
            },
            self.sound(),
        ensures
            self.stepped(g, fresh, i).tree.identity == self.tree.identity,
            self.stepped(g, fresh, i).tree.holdings() == self.tree.holdings(),
            self.stepped(g, fresh, i).hands() == self.hands(),
    {
        let new = self.stepped(g, fresh, i);
        assert(self.tree.admits(self.tasks[i]));
        match self.tasks[i] {
            TaskState::Read(walk) => {
                if walk.stage is Enter {
                    self.tree.lemma_place(walk, walk.frames.len() as int);
                } else if walk.stage is Unlink {
                    self.tree.lemma_place(walk, walk.frames.len() - 1);
                }
            },
            TaskState::Mark(n, climb) => {
                self.tree.lemma_ancestor(n, climb.next as int);
            },
            _ => {},
        }
        assert(new.tree.nodes.len() == self.tree.nodes.len());
        assert forall|x: int| 0 <= x < self.tree.nodes.len() implies #[trigger] new.tree.nodes[x].data
            == self.tree.nodes[x].data by {}
        assert(new.tree.holdings() =~= self.tree.holdings());
        assert forall|j: int| 0 <= j < self.tasks.len() implies #[trigger] new.tasks[j].in_hand(
            self.tree.identity,
        ) == self.tasks[j].in_hand(self.tree.identity) by {}
        assert(new.hands() =~= self.hands());
    }

    /// Folding `x` into the data of a node adds `x` to the total, whatever else
    /// is going on.
    pub proof fn law_a_write_adds_to_the_total(
        self,
        g: spec_fn(T, T) -> T,
        i: int,
        n: usize,
        x: T,
    )
        requires
            self.employs(i),
            self.tasks[i] is Idle,
            self.tree.held(n),
            commutative_monoid(g, self.tree.identity),
        ensures
            self.began_write(i, n, g(self.tree.node(n).data, x)).total(g) == g(self.total(g), x),
    {
        let e = self.tree.identity;
        let new = self.began_write(i, n, g(self.tree.node(n).data, x));
        let v = self.tree.holdings();
        assert(new.tree.holdings() =~= v.update(n as int, g(v[n as int], x)));
        lemma_sum_fold_in(g, e, v, n as int, x);
        assert(new.hands() =~= self.hands());
        let sv = sum(g, e, v);
        let sh = sum(g, e, self.hands());
        lemma_swap_last(g, e, sv, x, sh);
    }

    /// Overwriting the data of a node replaces, in the total, what the node held by
    /// what is written, and nothing else, whatever else is going on.
    pub proof fn law_an_overwrite_replaces_what_was_owed(
        self,
        g: spec_fn(T, T) -> T,
        i: int,
        n: usize,
        x: T,
    )
        requires
            self.employs(i),
            self.tasks[i] is Idle,
            self.tree.held(n),
            commutative_monoid(g, self.tree.identity),
        ensures
            self.total(g) == g(self.total_without(g, n), self.tree.node(n).data),
            self.began_write(i, n, x).total(g) == g(self.total_without(g, n), x),
            self.began_write(i, n, x).total(g) == g(
                sum(g, self.tree.identity, self.tree.holdings().update(n as int, x)),
                sum(g, self.tree.identity, self.hands()),
            ),
    {
        let e = self.tree.identity;
        let new = self.began_write(i, n, x);
        let v = self.tree.holdings();
        let rest = v.update(n as int, e);
        let d = self.tree.node(n).data;
        let sh = sum(g, e, self.hands());
        lemma_identity(g, e, x);
        lemma_identity(g, e, d);
        assert(new.tree.holdings() =~= v.update(n as int, x));
        assert(rest.update(n as int, g(rest[n as int], x)) =~= v.update(n as int, x));
        assert(rest.update(n as int, g(rest[n as int], d)) =~= v);
        assert(new.hands() =~= self.hands());
        lemma_sum_fold_in(g, e, rest, n as int, x);
        lemma_sum_fold_in(g, e, rest, n as int, d);
        lemma_swap_last(g, e, sum(g, e, rest), x, sh);
        lemma_swap_last(g, e, sum(g, e, rest), d, sh);
    }

    /// An overwrite adds what it writes to the total where that takes in what the
    /// node held: where the node owed nothing, or where a larger value overwrites a
    /// smaller one under a maximum.
    pub proof fn law_an_overwrite_that_takes_in_adds_to_the_total(
        self,
        g: spec_fn(T, T) -> T,
        i: int,
        n: usize,
        x: T,
    )
        requires
            self.employs(i),
            self.tasks[i] is Idle,
            self.tree.held(n),
            commutative_monoid(g, self.tree.identity),
            g(self.tree.node(n).data, x) == x,
        ensures
            self.began_write(i, n, x).total(g) == g(self.total(g), x),
    {
        self.law_a_write_adds_to_the_total(g, i, n, x);
    }

    /// Beginning a read, giving up, sharing or registering a handle does not
    /// change the total.
    pub proof fn law_only_writes_change_the_total(
        self,
        g: spec_fn(T, T) -> T,
        i: int,
        n: usize,
    )
        requires
            self.employs(i),
            self.tasks[i] is Idle,
            self.tree.held(n),
            commutative_monoid(g, self.tree.identity),
        ensures
            self.began_read(i, n).total(g) == self.total(g),
            self.began_release(i, n).total(g) == self.total(g),
            self.shared(n).total(g) == self.total(g),
            self.registered(n, self.tree.identity).total(g) == self.total(g),
    {
        let v = self.tree.holdings();
        assert(self.began_read(i, n).hands() =~= self.hands());
        assert(self.began_release(i, n).hands() =~= self.hands());
        assert(self.began_release(i, n).tree.holdings() =~= v);
        assert(self.shared(n).hands() =~= self.hands());
        assert(self.shared(n).tree.holdings() =~= v);
        let grown = self.registered(n, self.tree.identity);
        assert(grown.hands() =~= self.hands());
        assert(grown.tree.holdings() =~= v.push(self.tree.identity));
        assert(v.push(self.tree.identity).drop_last() =~= v);
        lemma_identity(g, self.tree.identity, sum(g, self.tree.identity, v));
    }

    /// With nobody at work, the total is that of the tree.
    pub proof fn lemma_quiet_total(self, g: spec_fn(T, T) -> T)
        requires
            self.quiet(),
            commutative_monoid(g, self.tree.identity),
        ensures
            self.total(g) == self.tree.total(g),
    {
        assert forall|i: int| 0 <= i < self.hands().len() implies #[trigger] self.hands()[i]
            == self.tree.identity by {
            assert(self.tasks[i] == TaskState::<T>::Idle);
        }
        lemma_sum_blank(g, self.tree.identity, self.hands());
        lemma_identity(g, self.tree.identity, self.tree.total(g));
    }
}

// ---------------------------------------------------------------------------
// A read with nobody else at work
// ---------------------------------------------------------------------------

impl<T: Clone> CrewState<T> {
    /// Nobody but worker `i` has anything in hand.
    pub open spec fn alone(self, i: int) -> bool {
        forall|j: int| self.employs(j) && j != i ==> #[trigger] self.tasks[j] == TaskState::<T>::Idle
    }

    /// Worker `i` alone is on a read of `n`, and has lowered the flag of `n` if
    /// it has done anything at all.
    pub open spec fn reads_alone(self, i: int, n: usize) -> bool {
        &&& self.employs(i)
        &&& self.alone(i)
        &&& self.tasks[i] is Read
        &&& self.tasks[i]->Read_0.origin == n
        &&& self.tasks[i]->Read_0.stage is Enter && self.tasks[i]->Read_0.frames.len() == 0
            || !self.tree.node(n).subtree_dirty
    }

    /// While a read runs alone, nobody raises the flag that it lowered.
    pub proof fn law_a_lone_read_keeps_its_flag_down(
        self,
        g: spec_fn(T, T) -> T,
        fresh: T,
        i: int,
        n: usize,
    )
        requires
            self.sound(),
            self.reads_alone(i, n),
            !(self.tasks[i]->Read_0.stage is Done),
        ensures
            self.stepped(g, fresh, i).reads_alone(i, n),
    {
        let new = self.stepped(g, fresh, i);
        let walk = self.tasks[i]->Read_0;
        assert(self.tree.admits(self.tasks[i]));
        assert forall|j: int| new.employs(j) && j != i implies #[trigger] new.tasks[j]
            == TaskState::<T>::Idle by {
            assert(self.tasks[j] == TaskState::<T>::Idle);
        }
        let (after, found) = self.tree.touched(g, fresh, walk.deed());
        assert(new.tasks[i] == TaskState::Read(walk.next(found)));
    }

    /// A step of a read moves values about below its node, and nowhere else: what
    /// the node and everything below it add up to stays the same.
    pub proof fn law_a_read_conserves_the_subtotal(
        self,
        g: spec_fn(T, T) -> T,
        i: int,
        n: usize,
    )
        requires
            self.sound(),
            self.employs(i),
            self.tasks[i] is Read,
            self.tasks[i]->Read_0.origin == n,
            commutative_monoid(g, self.tree.identity),
        ensures
            self.stepped(g, self.tree.identity, i).subtotal(g, n) == self.subtotal(g, n),
    {
        let tree = self.tree;
        let e = tree.identity;
        let new = self.stepped(g, e, i);
        assert(tree.admits(self.tasks[i]));
        let walk = self.tasks[i]->Read_0;
        let last = walk.frames.len() - 1;
        let h = self.hands();
        let v = tree.holdings_within(n);
        if walk.stage is Take {
            let c = walk.top().current();
            tree.lemma_within_origin(walk, walk.frames.len() as int);
            let d = tree.node(c).data;
            let rest = v.update(c as int, e);
            assert(new.tree.nodes.len() == tree.nodes.len());
            assert forall|x: int| 0 <= x < tree.nodes.len() implies #[trigger] new.tree.holdings_within(
                n,
            )[x] == rest[x] by {
                assert(new.tree.node(x as usize).ancestors == tree.node(x as usize).ancestors);
            }
            assert(new.tree.holdings_within(n) =~= rest);
            lemma_identity(g, e, d);
            assert(rest.update(c as int, g(rest[c as int], d)) =~= v);
            lemma_sum_fold_in(g, e, rest, c as int, d);
            assert(h[i] == e);
            assert(new.hands() =~= h.update(i, g(h[i], d)));
            lemma_sum_fold_in(g, e, h, i, d);
            lemma_either_side(g, e, sum(g, e, rest), sum(g, e, h), d);
        } else if walk.stage is Fold {
            let p = walk.place(last);
            let d = walk.stage->Fold_0;
            tree.lemma_within_origin(walk, last);
            let folded = v.update(p as int, g(v[p as int], d));
            assert(new.tree.nodes.len() == tree.nodes.len());
            assert forall|x: int| 0 <= x < tree.nodes.len() implies #[trigger] new.tree.holdings_within(
                n,
            )[x] == folded[x] by {
                assert(new.tree.node(x as usize).ancestors == tree.node(x as usize).ancestors);
            }
            assert(new.tree.holdings_within(n) =~= folded);
            lemma_sum_fold_in(g, e, v, p as int, d);
            let rest = h.update(i, e);
            assert(new.hands() =~= rest);
            lemma_identity(g, e, d);
            assert(rest.update(i, g(rest[i], d)) =~= h);
            lemma_sum_fold_in(g, e, rest, i, d);
            lemma_either_side(g, e, sum(g, e, v), sum(g, e, rest), d);
        } else {
            self.lemma_nothing_moves(g, e, i);
            assert(new.tree.nodes.len() == new.tree.holdings().len());
            assert(tree.nodes.len() == tree.holdings().len());
            assert forall|x: int| 0 <= x < tree.nodes.len() implies #[trigger] new.tree.holdings_within(
                n,
            )[x] == v[x] by {
                assert(new.tree.node(x as usize).ancestors == tree.node(x as usize).ancestors);
                assert(new.tree.holdings()[x] == tree.holdings()[x]);
            }
            assert(new.tree.holdings_within(n) =~= v);
        }
    }

    /// A read that ran alone has swept everything: below its node nothing is
    /// dirty, and what it is about to return is what the node and everything
    /// below it add up to.
    pub proof fn law_a_lone_read_is_exact(self, g: spec_fn(T, T) -> T, i: int, n: usize)
        requires
            self.sound(),
            self.reads_alone(i, n),
            self.tasks[i]->Read_0.stage is Done,
            commutative_monoid(g, self.tree.identity),
            clones_as_itself(self.tree.identity),
        ensures
            !self.tree.stirred(n),
            self.tree.node(n).data == self.subtotal(g, n),
    {
        let tree = self.tree;
        assert(tree.admits(self.tasks[i]));
        let walk = self.tasks[i]->Read_0;
        assert(walk.frames.len() == 0);
        assert forall|j: int, c: usize| self.employs(j) implies !tree.attends_flag(
            self.tasks[j],
            c,
        ) && !#[trigger] tree.attends_dirt(self.tasks[j], c) && (n != c ==> !tree.attends_data(
            self.tasks[j],
            c,
        )) by {
            if j != i {
                assert(self.tasks[j] == TaskState::<T>::Idle);
            }
        }
        assert forall|x: usize|
            tree.has(x) && tree.under(x, n) && tree.linked(x) implies #[trigger] tree.announced(
            x,
        ) by {
            tree.lemma_under_step(x, n);
            assert(self.flag_seen_to(x));
            assert(self.dirt_seen_to(x));
            assert forall|j: int| self.employs(j) implies !#[trigger] tree.attends_flag(
                self.tasks[j],
                x,
            ) by {
                assert(!tree.attends_dirt(self.tasks[j], x));
            }
        }
        if tree.stirred(n) {
            tree.lemma_stirred_is_flagged(n);
        }
        assert forall|x: int| 0 <= x < tree.nodes.len() && x != n implies
            #[trigger] tree.holdings_within(n)[x] == tree.identity by {
            let c = x as usize;
            assert(tree.nodes[x] == tree.node(c));
            if tree.under(c, n) {
                tree.lemma_under_is_younger(c, n);
                assert(!tree.node(c).dirty);
                assert(self.data_seen_to(c));
                assert forall|j: int| self.employs(j) implies !#[trigger] tree.attends_data(
                    self.tasks[j],
                    c,
                ) by {
                    assert(!tree.attends_dirt(self.tasks[j], c));
                }
                assert(cloned(tree.identity, tree.node(c).data));
            }
        }
        lemma_sum_single(g, tree.identity, tree.holdings_within(n), n as int);
        assert forall|j: int| 0 <= j < self.hands().len() implies #[trigger] self.hands()[j]
            == tree.identity by {
            if j != i {
                assert(self.tasks[j] == TaskState::<T>::Idle);
            }
        }
        lemma_sum_blank(g, tree.identity, self.hands());
        lemma_identity(g, tree.identity, tree.node(n).data);
    }
}

impl<T> TreeState<T> {
    /// A read never leaves the part of the tree below its node.
    pub proof fn lemma_within_origin(self, walk: WalkState<usize, T>, k: int)
        requires
            self.shaped(),
            self.vouches(walk),
            self.has(walk.origin),
            0 <= k <= walk.frames.len(),
            0 < k ==> walk.frames[k - 1].busy(),
        ensures
            self.has(walk.place(k)),
            self.within(walk.place(k), walk.origin),
        decreases k,
    {
        if 0 < k {
            let frame = walk.frames[k - 1];
            let s = walk.frames[k - 1].sons[frame.at as int];
            assert(self.has(s));
            if 1 < k {
                assert(walk.frames[k - 2].busy());
            }
            self.lemma_within_origin(walk, k - 1);
            self.lemma_under_step(s, walk.place(k - 1));
            if walk.place(k - 1) != walk.origin {
                self.lemma_under_trans(s, walk.place(k - 1), walk.origin);
            }
        }
    }
}

// ---------------------------------------------------------------------------
// A read of a quiet tree
// ---------------------------------------------------------------------------

impl<T> TreeState<T> {
    /// The data of the nodes at `n` and below, and the identity elsewhere.
    pub open spec fn holdings_within(self, n: usize) -> Seq<T> {
        Seq::new(
            self.nodes.len(),
            |x: int|
                if self.within(x as usize, n) {
                    self.nodes[x].data
                } else {
                    self.identity
                },
        )
    }

    /// The data of `n` and of all nodes at and below its first `k` sons, and the
    /// identity elsewhere.
    spec fn holdings_upto(self, n: usize, k: int) -> Seq<T> {
        Seq::new(
            self.nodes.len(),
            |x: int|
                if x == n || self.among_first(n, k, x as usize) {
                    self.nodes[x].data
                } else {
                    self.identity
                },
        )
    }

    /// The data of `n` and everything below it together.
    pub open spec fn subtotal(self, g: spec_fn(T, T) -> T, n: usize) -> T {
        sum(g, self.identity, self.holdings_within(n))
    }
}

impl<T: Clone> TreeState<T> {
    proof fn lemma_folded_upto_is_sum(self, g: spec_fn(T, T) -> T, n: usize, k: nat)
        requires
            self.sound(),
            self.has(n),
            k <= self.node(n).sons.len(),
            commutative_monoid(g, self.identity),
            clones_as_itself(self.identity),
        ensures
            self.folded_upto(g, n, k) == sum(g, self.identity, self.holdings_upto(n, k as int)),
        decreases self.nodes.len() - n, k,
    {
        let e = self.identity;
        if k == 0 {
            assert forall|x: int| 0 <= x < self.nodes.len() && x != n implies
                #[trigger] self.holdings_upto(n, 0)[x] == e by {}
            lemma_sum_single(g, e, self.holdings_upto(n, 0), n as int);
        } else {
            let s = self.node(n).sons[k - 1];
            self.lemma_son(n, k - 1);
            self.lemma_folded_upto_is_sum(g, n, (k - 1) as nat);
            self.lemma_subtotal(g, s);
            let a = self.holdings_upto(n, k - 1);
            let b = self.holdings_within(s);
            let c = self.holdings_upto(n, k as int);
            assert forall|x: int| 0 <= x < self.nodes.len() implies #[trigger] c[x] == g(
                a[x],
                b[x],
            ) by {
                let y = x as usize;
                let d = self.nodes[x].data;
                lemma_identity(g, e, d);
                lemma_identity(g, e, e);
                let before = y == n || self.among_first(n, k - 1, y);
                if before && self.within(y, s) {
                    if y == n {
                        self.lemma_under_is_younger(n, s);
                    } else {
                        let j = choose|j: int|
                            0 <= j < k - 1 && j < self.node(n).sons.len() && self.within(
                                y,
                                #[trigger] self.node(n).sons[j],
                            );
                        self.lemma_son(n, j);
                        self.lemma_branches_part(y, n, s, self.node(n).sons[j]);
                        assert(self.lists_its_own(n));
                    }
                    assert(false);
                }
                assert(self.among_first(n, k as int, y) == (self.among_first(n, k - 1, y)
                    || self.within(y, s))) by {
                    if self.within(y, s) {
                        assert(self.within(y, self.node(n).sons[k - 1]));
                    }
                    if self.among_first(n, k as int, y) {
                        let j = choose|j: int|
                            0 <= j < k && j < self.node(n).sons.len() && self.within(
                                y,
                                #[trigger] self.node(n).sons[j],
                            );
                        assert(self.within(y, self.node(n).sons[j]));
                    }
                    if self.among_first(n, k - 1, y) {
                        let j = choose|j: int|
                            0 <= j < k - 1 && j < self.node(n).sons.len() && self.within(
                                y,
                                #[trigger] self.node(n).sons[j],
                            );
                        assert(self.within(y, self.node(n).sons[j]));
                    }
                }
            }
            lemma_sum_zip(g, e, a, b, c);
            if !self.pending(s) {
                self.lemma_folded_still(g, s, self.node(s).sons.len());
                assert(!self.node(s).dirty);
                assert(cloned(e, self.node(s).data));
                lemma_identity(g, e, self.folded_upto(g, n, k));
            }
        }
    }

    /// What a node folds to is its data and everything below it together.
    pub proof fn lemma_subtotal(self, g: spec_fn(T, T) -> T, n: usize)
        requires
            self.sound(),
            self.has(n),
            commutative_monoid(g, self.identity),
            clones_as_itself(self.identity),
        ensures
            self.folded(g, n) == self.subtotal(g, n),
        decreases self.nodes.len() - n, self.node(n).sons.len() + 1,
    {
        let len = self.node(n).sons.len();
        self.lemma_folded_upto_is_sum(g, n, len);
        assert forall|x: int| 0 <= x < self.nodes.len() implies #[trigger] self.holdings_upto(
            n,
            len as int,
        )[x] == self.holdings_within(n)[x] by {
            let y = x as usize;
            assert(self.nodes[x] == self.node(y));
            if self.among_first(n, len as int, y) {
                let j = choose|j: int|
                    0 <= j < len && j < self.node(n).sons.len() && self.within(
                        y,
                        #[trigger] self.node(n).sons[j],
                    );
                self.lemma_son(n, j);
                self.lemma_under_trans(y, self.node(n).sons[j], n);
            } else if self.under(y, n) {
                self.lemma_under_is_younger(y, n);
                if self.linked(y) {
                    self.lemma_branch(y, n);
                    let j = self.node(n).sons.index_of(self.branch(y, n));
                    assert(self.within(y, self.node(n).sons[j]));
                } else {
                    assert(self.spent(y));
                    assert(cloned(self.identity, self.node(y).data));
                }
            }
        }
        assert(self.holdings_upto(n, len as int) =~= self.holdings_within(n));
    }

    /// What a read of the root of a quiet tree returns is the total.
    pub proof fn law_a_quiet_read_is_exact(self, g: spec_fn(T, T) -> T)
        requires
            self.sound(),
            commutative_monoid(g, self.identity),
            clones_as_itself(self.identity),
        ensures
            self.folded(g, 0) == self.total(g),
    {
        self.lemma_subtotal(g, 0);
        assert forall|x: int| 0 <= x < self.nodes.len() implies #[trigger] self.holdings_within(0)[x]
            == self.holdings()[x] by {
            if 0 < x {
                self.lemma_under_root(x as usize);
            }
        }
        assert(self.holdings_within(0) =~= self.holdings());
    }
}

} // verus!
