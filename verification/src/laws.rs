//! What holds of reads, writes and handles together.
use vstd::prelude::*;

use crate::monoid::clones_as_itself;
use crate::monoid::commutative_monoid;
use crate::monoid::lemma_identity;
use crate::monoid::lemma_sum_fold_in;
use crate::monoid::lemma_sum_single;
use crate::monoid::lemma_sum_zip;
use crate::state::lemma_filter_keeps_all;
use crate::state::NodeState;
use crate::state::TreeState;

verus! {

impl<T: Clone> TreeState<T> {
    /// What a read at `n` returns is what `n` holds afterwards, and `n` is no
    /// dirtier than it has to be.
    pub open spec fn read(self, g: spec_fn(T, T) -> T, new: Self, n: usize) -> bool {
        self.collected(new, n) && new.node(n).data == self.folded(g, n)
    }

    /// Reading keeps the tree sound.
    pub proof fn lemma_read_sound(self, g: spec_fn(T, T) -> T, new: Self, n: usize)
        requires
            self.sound(),
            self.held(n),
            self.read(g, new, n),
        ensures
            new.sound(),
    {
        if !self.stirred(n) {
            self.lemma_folded_still(g, n, self.node(n).sons.len());
        }
        self.lemma_collected_sound(new, n);
    }

    /// A read leaves nothing pending below.
    pub proof fn law_a_read_leaves_nothing_pending(self, new: Self, n: usize)
        requires
            self.sound(),
            self.held(n),
            self.collected(new, n),
        ensures
            !new.stirred(n),
            !new.node(n).subtree_dirty,
    {
        if new.stirred(n) {
            let x = choose|x: usize| new.has(x) && #[trigger] new.under(x, n) && new.node(x).dirty;
            assert(!self.under(n, n)) by {
                if self.under(n, n) {
                    self.lemma_under_is_younger(n, n);
                }
            }
            assert(new.node(n).ancestors == self.node(n).ancestors);
            assert(x != n);
            assert(new.node(x).ancestors == self.node(x).ancestors);
            assert(self.under(x, n));
            assert(self.drained(new, x));
            assert(false);
        }
    }

    /// Folding resets what is below to the identity: right after a read every
    /// strict descendant owes nothing and holds the identity.
    pub proof fn law_folding_resets_to_the_identity(self, new: Self, n: usize, x: usize)
        requires
            self.sound(),
            self.held(n),
            self.collected(new, n),
            self.has(x),
            self.under(x, n),
        ensures
            !new.node(x).dirty,
            cloned(self.identity, new.node(x).data),
    {
        self.lemma_under_is_younger(x, n);
        assert(self.drained(new, x));
        if !self.pending(x) {
            assert(!self.node(x).dirty);
        }
    }

    /// Reading is idempotent: a second read returns the same and changes nothing.
    pub proof fn law_reading_twice_is_reading_once(
        self,
        g: spec_fn(T, T) -> T,
        once: Self,
        twice: Self,
        n: usize,
    )
        requires
            self.sound(),
            self.held(n),
            self.read(g, once, n),
            once.read(g, twice, n),
        ensures
            twice.node(n).data == once.node(n).data,
            twice == once,
    {
        self.law_a_read_leaves_nothing_pending(once, n);
        self.lemma_read_sound(g, once, n);
        once.lemma_folded_still(g, n, once.node(n).sons.len());
        assert forall|x: int| 0 <= x < once.nodes.len() implies #[trigger] twice.nodes[x]
            == once.nodes[x] by {
            let y = x as usize;
            assert(twice.nodes[x] == twice.node(y) && once.nodes[x] == once.node(y));
            assert(twice.node(y).handles == once.node(y).handles);
            if y == n {
                assert(twice.node(n) =~= once.node(n));
            } else if once.under(y, n) {
                assert(once.drained(twice, y));
                assert(!once.node(y).dirty);
                assert(!once.stirred(y)) by {
                    if once.stirred(y) {
                        let z = choose|z: usize|
                            once.has(z) && #[trigger] once.under(z, y) && once.node(z).dirty;
                        once.lemma_under_trans(z, y, n);
                    }
                }
                if once.node(y).subtree_dirty {
                    assert(!once.linked(y)) by {
                        if once.linked(y) {
                            if n != 0 {
                                once.lemma_under_root(n);
                                once.lemma_coherent_branch(0, n);
                            }
                            once.lemma_dirty_flags_up(y, n);
                        }
                    }
                    assert(once.spent(y));
                    lemma_filter_keeps_all(once.node(y).sons, |s: usize| !twice.spent(s));
                }
                assert(twice.node(y) =~= once.node(y));
            } else {
                assert(twice.node(y) == once.node(y));
            }
        }
        assert(twice =~= once);
    }

    /// A node with a live writer in it or below it is never unlinked: not the
    /// node of a handle, and not a dead node above one.
    pub proof fn law_what_leads_to_a_live_node_stays(
        self,
        new: Self,
        n: usize,
        x: usize,
        live: usize,
    )
        requires
            self.sound(),
            self.held(n),
            self.collected(new, n),
            self.has(x),
            self.held(live),
            self.within(live, x),
        ensures
            new.linked(x),
    {
        assert(new.node(live).handles == self.node(live).handles) by {
            assert(new.node(live).handles == self.node(live).handles);
        }
        assert(new.node(live).ancestors == self.node(live).ancestors) by {
            assert(new.node(live).ancestors == self.node(live).ancestors);
        }
        assert(new.shaped()) by {
            self.lemma_collected_shaped(new, n);
        }
        new.lemma_held_is_linked(live);
        if live != x {
            new.lemma_ancestors_linked(live, x);
        }
    }

    /// A node is spent exactly when nobody is left: it has no handle, owes nothing,
    /// and has no sons. Each of the three alone keeps it.
    pub proof fn law_spent_is_vacant(self, n: usize)
        requires
            self.sound(),
            self.has(n),
        ensures
            self.spent(n) == (self.node(n).handles == 0 && !self.node(n).dirty && self.node(
                n,
            ).sons.len() == 0),
    {
        assert(self.node(n).handles == 0 ==> self.node(n).dead);
    }

    /// A read that finds something to do keeps exactly the sons that somebody is
    /// left at, in the order that they were in: at the node that was read, and at
    /// every node below it that was swept, the list stays the length of those that
    /// have a handle or sons of their own.
    pub proof fn law_a_sweep_unlinks_what_is_spent(
        self,
        new: Self,
        n: usize,
        x: usize,
        i: int,
    )
        requires
            self.sound(),
            self.held(n),
            self.collected(new, n),
            self.has(x),
            self.within(x, n),
            self.node(x).subtree_dirty,
        ensures
            new.node(x).sons == self.node(x).sons.filter(|s: usize| !new.vacant(s)),
            0 <= i < new.node(x).sons.len() ==> new.held(new.node(x).sons[i]) || new.node(
                new.node(x).sons[i],
            ).sons.len() > 0,
    {
        if x != n {
            self.lemma_under_is_younger(x, n);
            assert(self.drained(new, x));
        }
        self.lemma_sweep_leaves_no_vacancy(new, x);
        if 0 <= i < new.node(x).sons.len() {
            let s = new.node(x).sons[i];
            let was = self.node(x).sons;
            was.lemma_filter_pred(|s: usize| !new.vacant(s), i);
            was.lemma_filter_contains_rev(|s: usize| !new.vacant(s), s);
            let j = was.index_of(s);
            self.lemma_son(x, j);
            if x != n {
                self.lemma_under_trans(s, x, n);
            }
            assert(self.drained(new, s));
        }
    }

    /// Giving up a handle takes nothing from what is read: what the node still
    /// owes stays where it is until it is folded. No data, no dirty bit and no list
    /// of sons changes, and the node is dead only once its last handle is gone.
    pub proof fn law_a_dropped_handle_still_delivers(
        self,
        g: spec_fn(T, T) -> T,
        n: usize,
        m: usize,
    )
        requires
            self.sound(),
            self.held(n),
            self.has(m),
        ensures
            self.released(n).folded(g, m) == self.folded(g, m),
            self.released(n).node(m).data == self.node(m).data,
            self.released(n).node(m).dirty == self.node(m).dirty,
            self.released(n).node(m).sons == self.node(m).sons,
            self.released(n).node(n).dead == (self.node(n).handles == 1),
    {
        self.lemma_same_but_handles(self.released(n), g, m, self.node(m).sons.len());
    }

    /// Sharing a handle takes nothing from what is read.
    pub proof fn law_a_clone_shares_the_node(self, g: spec_fn(T, T) -> T, n: usize, m: usize)
        requires
            self.sound(),
            self.held(n),
            self.has(m),
        ensures
            self.shared(n).folded(g, m) == self.folded(g, m),
            self.shared(n).node(n).data == self.node(n).data,
    {
        self.lemma_same_but_handles(self.shared(n), g, m, self.node(m).sons.len());
    }

    proof fn lemma_same_but_handles(
        self,
        other: Self,
        g: spec_fn(T, T) -> T,
        m: usize,
        k: nat,
    )
        requires
            self.shaped(),
            self.has(m),
            k <= self.node(m).sons.len(),
            other.nodes.len() == self.nodes.len(),
            forall|x: usize|
                self.has(x) ==> {
                    &&& (#[trigger] other.node(x)).sons == self.node(x).sons
                    &&& other.node(x).data == self.node(x).data
                    &&& other.node(x).dirty == self.node(x).dirty
                    &&& other.node(x).ancestors == self.node(x).ancestors
                },
        ensures
            other.folded_upto(g, m, k) == self.folded_upto(g, m, k),
        decreases self.nodes.len() - m, k,
    {
        assert(other.node(m).data == self.node(m).data);
        if k > 0 {
            let s = self.node(m).sons[k - 1];
            self.lemma_son(m, k - 1);
            self.lemma_same_but_handles(other, g, m, (k - 1) as nat);
            self.lemma_same_but_handles(other, g, s, self.node(s).sons.len());
            assert(other.node(s).dirty == self.node(s).dirty);
            assert(other.pending(s) == self.pending(s)) by {
                if self.stirred(s) {
                    let x = choose|x: usize|
                        self.has(x) && #[trigger] self.under(x, s) && self.node(x).dirty;
                    assert(other.node(x).ancestors == self.node(x).ancestors);
                    assert(other.under(x, s));
                }
                if other.stirred(s) {
                    let x = choose|x: usize|
                        other.has(x) && #[trigger] other.under(x, s) && other.node(x).dirty;
                    assert(other.node(x).ancestors == self.node(x).ancestors);
                    assert(self.under(x, s));
                }
            }
        }
    }

    /// A clear flag is never wrong: where it is down, nothing below is dirty, and a
    /// read may skip everything there.
    pub proof fn law_a_clear_flag_hides_nothing(self, g: spec_fn(T, T) -> T, n: usize)
        requires
            self.sound(),
            self.has(n),
            !self.node(n).subtree_dirty,
        ensures
            !self.stirred(n),
            self.folded(g, n) == self.node(n).data,
    {
        if self.stirred(n) {
            if n != 0 {
                self.lemma_under_root(n);
                self.lemma_coherent_branch(0, n);
            }
            self.lemma_stirred_is_flagged(n);
        }
        self.lemma_folded_still(g, n, self.node(n).sons.len());
    }

    /// A write stays in its node: of every other node it changes at most the flag
    /// that leads a read to it.
    pub proof fn law_a_write_stays_in_its_node(self, n: usize, data: T, x: usize)
        requires
            self.has(n),
            self.has(x),
            x != n,
        ensures
            self.written(n, data).node(x) == (NodeState {
                subtree_dirty: self.node(x).subtree_dirty || self.under(n, x),
                ..self.node(x)
            }),
    {
        assert(self.nodes[x as int] == self.node(x));
    }

    /// Writes coalesce: what is overwritten before a merge never leaves the node.
    pub proof fn law_writes_coalesce(self, n: usize, first: T, second: T)
        requires
            self.has(n),
        ensures
            self.written(n, first).written(n, second) == self.written(n, second),
    {
        let mid = self.written(n, first);
        assert forall|x: int| 0 <= x < self.nodes.len() implies #[trigger] mid.written(
            n,
            second,
        ).nodes[x] == self.written(n, second).nodes[x] by {
            assert(mid.node(n).ancestors == self.node(n).ancestors);
        }
        assert(mid.written(n, second) =~= self.written(n, second));
    }

    /// A write reaches the root: folding `x` into the data of any node adds `x`
    /// to what a read of the root returns.
    pub proof fn law_a_write_reaches_the_root(self, g: spec_fn(T, T) -> T, n: usize, x: T)
        requires
            self.sound(),
            self.held(n),
            commutative_monoid(g, self.identity),
            clones_as_itself(self.identity),
        ensures
            self.written(n, g(self.node(n).data, x)).folded(g, 0) == g(self.folded(g, 0), x),
    {
        let new = self.written(n, g(self.node(n).data, x));
        self.lemma_written_sound(n, g(self.node(n).data, x));
        self.law_a_quiet_read_is_exact(g);
        new.law_a_quiet_read_is_exact(g);
        let v = self.holdings();
        assert(new.holdings() =~= v.update(n as int, g(v[n as int], x)));
        lemma_sum_fold_in(g, self.identity, v, n as int, x);
    }

    /// A new son adds nothing to what is read, at any node and with any fold: it is
    /// the youngest of its father's sons, and nothing else changes at any node, not
    /// the data, not the dirty bit, and not whether anything below is dirty.
    pub proof fn law_a_new_son_owes_nothing(
        self,
        g: spec_fn(T, T) -> T,
        n: usize,
        data: T,
        m: usize,
    )
        requires
            self.sound(),
            self.held(n),
            self.nodes.len() < usize::MAX,
            self.has(m),
        ensures
            self.grown(n, data).folded(g, m) == self.folded(g, m),
            self.grown(n, data).stirred(m) == self.stirred(m),
            self.grown(n, data).node(m).data == self.node(m).data,
            self.grown(n, data).node(m).dirty == self.node(m).dirty,
            self.grown(n, data).node(m).sons == if m == n {
                self.node(n).sons.push(self.nodes.len() as usize)
            } else {
                self.node(m).sons
            },
    {
        self.lemma_grown_folded(g, n, data, m, self.node(m).sons.len());
        self.lemma_grown_pending(n, data, m);
        if m == n {
            self.lemma_grown_leaf(g, n, data);
        }
    }

    proof fn lemma_grown_pending(self, n: usize, data: T, m: usize)
        requires
            self.shaped(),
            self.held(n),
            self.nodes.len() < usize::MAX,
            self.has(m),
        ensures
            self.grown(n, data).stirred(m) == self.stirred(m),
            self.grown(n, data).pending(m) == self.pending(m),
    {
        let new = self.grown(n, data);
        if self.stirred(m) {
            let x = choose|x: usize| self.has(x) && #[trigger] self.under(x, m) && self.node(x).dirty;
            assert(new.under(x, m) && new.node(x).dirty);
        }
        if new.stirred(m) {
            let x = choose|x: usize| new.has(x) && #[trigger] new.under(x, m) && new.node(x).dirty;
            assert(self.has(x));
            assert(self.under(x, m) && self.node(x).dirty);
        }
    }

    proof fn lemma_grown_folded(
        self,
        g: spec_fn(T, T) -> T,
        n: usize,
        data: T,
        m: usize,
        k: nat,
    )
        requires
            self.sound(),
            self.held(n),
            self.nodes.len() < usize::MAX,
            self.has(m),
            k <= self.node(m).sons.len(),
        ensures
            self.grown(n, data).folded_upto(g, m, k) == self.folded_upto(g, m, k),
        decreases self.nodes.len() - m, k,
    {
        let new = self.grown(n, data);
        if k > 0 {
            let s = self.node(m).sons[k - 1];
            self.lemma_son(m, k - 1);
            assert(new.node(m).sons[k - 1] == s);
            self.lemma_grown_folded(g, n, data, m, (k - 1) as nat);
            self.lemma_grown_pending(n, data, s);
            self.lemma_grown_folded(g, n, data, s, self.node(s).sons.len());
            if s == n {
                self.lemma_grown_leaf(g, n, data);
            }
        }
    }

    proof fn lemma_grown_leaf(self, g: spec_fn(T, T) -> T, n: usize, data: T)
        requires
            self.shaped(),
            self.held(n),
            self.nodes.len() < usize::MAX,
        ensures
            self.grown(n, data).folded(g, n) == self.grown(n, data).folded_upto(
                g,
                n,
                self.node(n).sons.len(),
            ),
    {
        let new = self.grown(n, data);
        let len = self.node(n).sons.len();
        let son = self.nodes.len() as usize;
        assert(new.node(n).sons[len as int] == son);
        if new.stirred(son) {
            let x = choose|x: usize| new.has(x) && #[trigger] new.under(x, son) && new.node(x).dirty;
            self.lemma_grown_shaped(n, data);
            new.lemma_under_is_younger(x, son);
        }
        assert(!new.pending(son));
    }

    /// A read anywhere takes nothing from the aggregate: whatever node is read,
    /// what the root will return is the same before and after.
    pub proof fn law_a_read_anywhere_loses_nothing(
        self,
        g: spec_fn(T, T) -> T,
        new: Self,
        n: usize,
    )
        requires
            self.sound(),
            self.held(n),
            self.read(g, new, n),
            commutative_monoid(g, self.identity),
            clones_as_itself(self.identity),
        ensures
            new.folded(g, 0) == self.folded(g, 0),
    {
        let e = self.identity;
        self.lemma_read_sound(g, new, n);
        self.law_a_quiet_read_is_exact(g);
        new.law_a_quiet_read_is_exact(g);
        self.lemma_subtotal(g, n);
        let inside = self.holdings_within(n);
        let outside = Seq::new(
            self.nodes.len(),
            |x: int|
                if self.within(x as usize, n) {
                    e
                } else {
                    self.nodes[x].data
                },
        );
        let lone = Seq::new(
            self.nodes.len(),
            |x: int|
                if x == n {
                    new.node(n).data
                } else {
                    e
                },
        );
        assert forall|x: int| 0 <= x < self.nodes.len() implies #[trigger] self.holdings()[x] == g(
            inside[x],
            outside[x],
        ) by {
            lemma_identity(g, e, self.nodes[x].data);
        }
        lemma_sum_zip(g, e, inside, outside, self.holdings());
        assert forall|x: int| 0 <= x < self.nodes.len() implies #[trigger] new.holdings()[x] == g(
            lone[x],
            outside[x],
        ) by {
            let y = x as usize;
            assert(self.nodes[x] == self.node(y) && new.nodes[x] == new.node(y));
            lemma_identity(g, e, new.nodes[x].data);
            if y != n {
                if self.under(y, n) {
                    self.law_folding_resets_to_the_identity(new, n, y);
                } else {
                    assert(new.node(y) == self.node(y));
                }
            }
        }
        lemma_sum_zip(g, e, lone, outside, new.holdings());
        lemma_sum_single(g, e, lone, n as int);
    }
}

} // verus!
