//! What a sweep makes of the tree.
//!
//! A sweep at a node folds everything that is pending below it into the node,
//! deepest first, and unlinks the nodes that are spent by then.
use vstd::prelude::*;

use crate::state::lemma_filter_agrees;
use crate::state::NodeState;
use crate::state::TreeState;

verus! {

impl<T> TreeState<T> {
    /// The tree with another node in the place of `n`.
    pub open spec fn with(self, n: usize, node: NodeState<T>) -> Self {
        TreeState { nodes: self.nodes.update(n as int, node), identity: self.identity }
    }

    /// `x` hangs from one of the first `k` sons of `n`.
    pub open spec fn among_first(self, n: usize, k: int, x: usize) -> bool {
        exists|j: int|
            0 <= j < k && j < self.node(n).sons.len() && self.within(
                x,
                #[trigger] self.node(n).sons[j],
            )
    }

    /// What no sweep changes: the names, the ancestors, the handles, the dead.
    pub open spec fn same_frame(self, new: Self) -> bool {
        &&& new.nodes.len() == self.nodes.len()
        &&& new.identity == self.identity
        &&& forall|x: usize|
            self.has(x) ==> {
                &&& (#[trigger] new.node(x)).handles == self.node(x).handles
                &&& new.node(x).dead == self.node(x).dead
                &&& new.node(x).ancestors == self.node(x).ancestors
            }
    }
}

impl<T: Clone> TreeState<T> {
    /// What a sweep from above makes of `x`: what `x` had to deliver is gone and
    /// `identity` is in its place, both flags are down, and the sons that are
    /// spent by now are unlinked. A node that was unlinked before stays as it is.
    pub open spec fn drained(self, new: Self, x: usize) -> bool {
        let was = self.node(x);
        let now = new.node(x);
        &&& if self.pending(x) {
            cloned(self.identity, now.data)
        } else {
            now.data == was.data
        }
        &&& !now.dirty
        &&& now.subtree_dirty == (was.subtree_dirty && !self.linked(x))
        &&& now.sons == (if was.subtree_dirty {
            new.unspent(was.sons)
        } else {
            was.sons
        })
    }

    /// Everything below `n` is swept: all nodes below are drained, the flag of
    /// `n` is down, the spent sons of `n` are unlinked, and nothing outside
    /// changes. The data and the dirty bit of `n` itself are left open.
    pub open spec fn cleared(self, new: Self, n: usize) -> bool {
        &&& self.same_frame(new)
        &&& forall|x: usize|
            self.has(x) && self.under(x, n) ==> #[trigger] self.drained(new, x)
        &&& forall|x: usize|
            self.has(x) && !self.within(x, n) ==> #[trigger] new.node(x) == self.node(x)
        &&& !new.node(n).subtree_dirty
        &&& new.node(n).sons == (if self.node(n).subtree_dirty {
            new.unspent(self.node(n).sons)
        } else {
            self.node(n).sons
        })
    }

    /// A sweep at `n`, apart from the data of `n` itself.
    pub open spec fn swept(self, new: Self, n: usize) -> bool {
        self.cleared(new, n) && new.node(n).dirty == self.node(n).dirty
    }

    /// A sweep at `n` after the first `k` sons: those are drained, the others are
    /// untouched, and the flag of `n` is down already.
    pub open spec fn swept_upto(self, new: Self, n: usize, k: int) -> bool {
        &&& self.same_frame(new)
        &&& forall|x: usize|
            self.has(x) && self.among_first(n, k, x) ==> #[trigger] self.drained(new, x)
        &&& forall|x: usize|
            self.has(x) && x != n && !self.among_first(n, k, x) ==> #[trigger] new.node(x)
                == self.node(x)
        &&& new.node(n).dirty == self.node(n).dirty
        &&& !new.node(n).subtree_dirty
        &&& new.node(n).sons == self.node(n).sons
    }
}

// ---------------------------------------------------------------------------
// Trees that agree
// ---------------------------------------------------------------------------

impl<T> TreeState<T> {
    /// Equal ancestors give equal shapes.
    pub proof fn lemma_same_under(self, other: Self, x: usize, n: usize)
        requires
            self.same_frame(other),
            self.has(x),
        ensures
            self.under(x, n) == other.under(x, n),
            self.within(x, n) == other.within(x, n),
            self.father(x) == other.father(x),
    {
        assert(other.node(x).ancestors == self.node(x).ancestors);
    }

    /// `other` has the nodes of `self` at `n` and below.
    pub open spec fn agrees_within(self, other: Self, n: usize) -> bool {
        forall|x: usize|
            self.has(x) && self.within(x, n) ==> #[trigger] other.node(x) == self.node(x)
    }

    /// What is pending at a node depends on that part of the tree alone.
    pub proof fn lemma_same_pending(self, other: Self, n: usize)
        requires
            self.same_frame(other),
            self.has(n),
            self.agrees_within(other, n),
        ensures
            self.stirred(n) == other.stirred(n),
            self.pending(n) == other.pending(n),
    {
        if self.stirred(n) {
            let x = choose|x: usize|
                self.has(x) && #[trigger] self.under(x, n) && self.node(x).dirty;
            self.lemma_same_under(other, x, n);
            assert(other.node(x) == self.node(x));
            assert(other.under(x, n));
        }
        if other.stirred(n) {
            let x = choose|x: usize|
                other.has(x) && #[trigger] other.under(x, n) && other.node(x).dirty;
            self.lemma_same_under(other, x, n);
            assert(other.node(x) == self.node(x));
            assert(self.under(x, n));
        }
        assert(other.node(n) == self.node(n));
    }

    /// What a node folds to depends on that part of the tree alone.
    pub proof fn lemma_same_folded(self, other: Self, g: spec_fn(T, T) -> T, n: usize, k: nat)
        requires
            self.shaped(),
            self.same_frame(other),
            self.has(n),
            self.agrees_within(other, n),
            k <= self.node(n).sons.len(),
        ensures
            self.folded_upto(g, n, k) == other.folded_upto(g, n, k),
        decreases self.nodes.len() - n, k,
    {
        assert(other.node(n) == self.node(n));
        if k > 0 {
            self.lemma_same_folded(other, g, n, (k - 1) as nat);
            let s = self.node(n).sons[k - 1];
            self.lemma_son(n, k - 1);
            self.lemma_agrees_branch(other, n, s);
            self.lemma_same_pending(other, s);
            assert(other.node(s) == self.node(s));
            self.lemma_same_folded(other, g, s, self.node(s).sons.len());
        }
    }

    /// Trees that agree below a node agree below its descendants.
    pub proof fn lemma_agrees_branch(self, other: Self, n: usize, s: usize)
        requires
            self.shaped(),
            self.agrees_within(other, n),
            self.under(s, n),
        ensures
            self.agrees_within(other, s),
    {
        assert forall|x: usize| self.has(x) && self.within(x, s) implies #[trigger] other.node(x)
            == self.node(x) by {
            self.lemma_under_trans(x, s, n);
        }
    }

    /// Trees that agree below a linked node agree on what is linked there.
    pub proof fn lemma_same_linked(self, other: Self, n: usize, s: usize, x: usize)
        requires
            self.shaped(),
            self.same_frame(other),
            self.agrees_within(other, s),
            self.has(s),
            0 < s,
            self.father(s) == n,
            self.node(n).sons == other.node(n).sons,
            self.has(x),
            self.within(x, s),
        ensures
            self.linked(x) == other.linked(x),
    {
        self.lemma_same_under(other, x, s);
        if x != s {
            self.lemma_under_step(x, s);
            self.lemma_linked_up(x);
            assert(other.node(self.father(x)) == self.node(self.father(x)));
        }
    }

    /// Every son that `x` lists in `new` it listed before, and every one that it
    /// no longer lists is spent.
    pub open spec fn thinned(self, new: Self, x: usize) -> bool {
        let was = self.node(x).sons;
        let now = new.node(x).sons;
        &&& now.no_duplicates()
        &&& forall|i: int| 0 <= i < now.len() ==> was.contains(#[trigger] now[i])
        &&& forall|i: int|
            0 <= i < was.len() ==> now.contains(#[trigger] was[i]) || new.spent(was[i])
    }

    /// Unlinking spent sons keeps the shape of the tree.
    pub proof fn lemma_thinning_keeps_shape(self, new: Self)
        requires
            self.shaped(),
            self.same_frame(new),
            forall|x: usize| self.has(x) && #[trigger] self.spent(x) ==> new.spent(x),
            forall|x: usize| self.has(x) ==> #[trigger] self.thinned(new, x),
        ensures
            new.shaped(),
    {
        assert forall|n: usize| 0 < n && new.has(n) implies #[trigger] new.descends(n) by {
            assert(self.descends(n));
            assert(new.node(n).ancestors == self.node(n).ancestors);
            assert(new.node(self.father(n)).ancestors == self.node(self.father(n)).ancestors);
        }
        assert forall|n: usize| new.has(n) implies #[trigger] new.lists_its_own(n) by {
            assert(self.lists_its_own(n));
            assert(self.thinned(new, n));
            let was = self.node(n).sons;
            let now = new.node(n).sons;
            assert forall|i: int| 0 <= i < now.len() implies new.has(#[trigger] now[i]) && 0
                < now[i] && new.father(now[i]) == n by {
                assert(was.contains(now[i]));
                let j = was.index_of(now[i]);
                assert(was[j] == now[i]);
                assert(new.node(now[i]).ancestors == self.node(now[i]).ancestors);
            }
        }
        assert forall|n: usize| new.has(n) && !#[trigger] new.linked(n) implies new.spent(n) by {
            if !self.linked(n) {
                assert(self.spent(n));
            } else {
                assert(self.descends(n));
                let f = self.father(n);
                assert(new.node(n).ancestors == self.node(n).ancestors);
                assert(self.thinned(new, f));
                let i = self.node(f).sons.index_of(n);
                assert(self.node(f).sons[i] == n);
            }
        }
        assert forall|n: usize| new.has(n) && (#[trigger] new.node(n)).dead implies new.node(
            n,
        ).handles == 0 by {
            assert(self.node(n).dead);
        }
    }

    /// Unlinking all spent sons keeps the shape of the tree.
    pub proof fn lemma_shape_kept(self, new: Self)
        requires
            self.shaped(),
            self.same_frame(new),
            forall|x: usize| self.has(x) && #[trigger] self.spent(x) ==> new.spent(x),
            forall|x: usize|
                self.has(x) ==> (#[trigger] new.node(x)).sons == self.node(x).sons || new.node(
                    x,
                ).sons == new.unspent(self.node(x).sons),
        ensures
            new.shaped(),
    {
        assert forall|x: usize| self.has(x) implies #[trigger] self.thinned(new, x) by {
            assert(self.lists_its_own(x));
            let was = self.node(x).sons;
            let now = new.node(x).sons;
            assert(now == was || now == new.unspent(was));
            if now != was {
                lemma_filter_is_part(was, |s: usize| !new.spent(s));
                assert forall|i: int| 0 <= i < was.len() implies now.contains(#[trigger] was[i])
                    || new.spent(was[i]) by {
                    if !new.spent(was[i]) {
                        was.lemma_filter_contains(|s: usize| !new.spent(s), i);
                    }
                }
            }
        }
        self.lemma_thinning_keeps_shape(new);
    }
}

/// Filtering picks values of the sequence, and repeats none.
pub proof fn lemma_filter_is_part<A>(s: Seq<A>, p: spec_fn(A) -> bool)
    ensures
        forall|i: int| 0 <= i < s.filter(p).len() ==> s.contains(#[trigger] s.filter(p)[i]),
        s.no_duplicates() ==> s.filter(p).no_duplicates(),
    decreases s.len(),
{
    reveal(Seq::filter);
    if s.len() > 0 {
        let init = s.drop_last();
        lemma_filter_is_part(init, p);
        assert forall|i: int| 0 <= i < s.filter(p).len() implies s.contains(
            #[trigger] s.filter(p)[i],
        ) by {
            if i < init.filter(p).len() {
                assert(init.contains(init.filter(p)[i]));
                let j = init.index_of(init.filter(p)[i]);
                assert(s[j] == s.filter(p)[i]);
            } else {
                assert(s[s.len() - 1] == s.filter(p)[i]);
            }
        }
        if s.no_duplicates() {
            assert(init.no_duplicates());
            assert forall|i: int, j: int|
                0 <= i < j < s.filter(p).len() implies s.filter(p)[i] != s.filter(p)[j] by {
                if j >= init.filter(p).len() {
                    assert(init.contains(init.filter(p)[i]));
                    let k = init.index_of(init.filter(p)[i]);
                    assert(s[k] == s.filter(p)[i]);
                    assert(s[s.len() - 1] == s.filter(p)[j]);
                }
            }
        }
    }
}

// ---------------------------------------------------------------------------
// One son at a time
// ---------------------------------------------------------------------------

impl<T: Clone> TreeState<T> {
    /// Every state that a sweep passes through has a sound shape.
    pub proof fn lemma_swept_upto_shaped(self, cur: Self, n: usize, k: int)
        requires
            self.shaped(),
            self.has(n),
            self.swept_upto(cur, n, k),
        ensures
            cur.shaped(),
    {
        assert forall|x: usize| self.has(x) && #[trigger] self.spent(x) implies cur.spent(x) by {
            if x != n {
                if self.among_first(n, k, x) {
                    assert(self.drained(cur, x));
                    assert(cur.unspent(self.node(x).sons).len() <= 0) by {
                        self.node(x).sons.lemma_filter_len(|s: usize| !cur.spent(s));
                    }
                } else {
                    assert(cur.node(x) == self.node(x));
                }
            }
            assert(cur.node(x).handles == self.node(x).handles);
        }
        assert forall|x: usize| self.has(x) implies (#[trigger] cur.node(x)).sons == self.node(
            x,
        ).sons || cur.node(x).sons == cur.unspent(self.node(x).sons) by {
            if x != n {
                if self.among_first(n, k, x) {
                    assert(self.drained(cur, x));
                } else {
                    assert(cur.node(x) == self.node(x));
                }
            }
        }
        self.lemma_shape_kept(cur);
    }

    /// Before its turn, a son and all below it are as they were.
    pub proof fn lemma_next_son_untouched(self, cur: Self, n: usize, k: int)
        requires
            self.shaped(),
            self.has(n),
            self.swept_upto(cur, n, k),
            0 <= k < self.node(n).sons.len(),
        ensures
            self.agrees_within(cur, self.node(n).sons[k]),
    {
        let s = self.node(n).sons[k];
        self.lemma_son(n, k);
        assert forall|x: usize| self.has(x) && self.within(x, s) implies #[trigger] cur.node(x)
            == self.node(x) by {
            if self.among_first(n, k, x) {
                let j = choose|j: int|
                    0 <= j < k && j < self.node(n).sons.len() && self.within(
                        x,
                        #[trigger] self.node(n).sons[j],
                    );
                self.lemma_son(n, j);
                self.lemma_branches_part(x, n, s, self.node(n).sons[j]);
                assert(self.lists_its_own(n));
                assert(false);
            }
            if x != s {
                self.lemma_under_is_younger(x, s);
            }
        }
    }

    /// What is coherent below a node is still so below a son whose turn is next.
    pub proof fn lemma_next_son_coherent(self, cur: Self, n: usize, k: int)
        requires
            self.shaped(),
            self.has(n),
            self.coherent_below(n),
            self.swept_upto(cur, n, k),
            0 <= k < self.node(n).sons.len(),
        ensures
            cur.coherent_below(self.node(n).sons[k]),
    {
        let s = self.node(n).sons[k];
        self.lemma_son(n, k);
        self.lemma_next_son_untouched(cur, n, k);
        self.lemma_coherent_branch(n, s);
        assert forall|x: usize|
            cur.has(x) && cur.under(x, s) && cur.linked(x) implies #[trigger] cur.announced(x) by {
            self.lemma_same_under(cur, x, s);
            self.lemma_same_linked(cur, n, s, x);
            assert(self.announced(x));
            self.lemma_under_step(x, s);
            self.lemma_linked_up(x);
            assert(cur.node(self.father(x)) == self.node(self.father(x)));
            assert(cur.node(x) == self.node(x));
        }
    }

    /// Draining one more son takes the sweep one son further.
    pub proof fn lemma_sweep_one_more(
        self,
        cur: Self,
        mid: Self,
        new: Self,
        n: usize,
        k: int,
    )
        requires
            self.shaped(),
            self.has(n),
            self.swept_upto(cur, n, k),
            0 <= k < self.node(n).sons.len(),
            cur.swept(mid, self.node(n).sons[k]),
            mid.same_frame(new),
            forall|x: usize|
                mid.has(x) && x != n && x != self.node(n).sons[k] ==> #[trigger] new.node(x)
                    == mid.node(x),
            new.node(n).dirty == mid.node(n).dirty,
            new.node(n).subtree_dirty == mid.node(n).subtree_dirty,
            new.node(n).sons == mid.node(n).sons,
            !new.node(self.node(n).sons[k]).dirty,
            new.node(self.node(n).sons[k]).subtree_dirty == mid.node(
                self.node(n).sons[k],
            ).subtree_dirty,
            new.node(self.node(n).sons[k]).sons == mid.node(self.node(n).sons[k]).sons,
            if self.pending(self.node(n).sons[k]) {
                cloned(self.identity, new.node(self.node(n).sons[k]).data)
            } else {
                new.node(self.node(n).sons[k]).data == self.node(self.node(n).sons[k]).data
            },
        ensures
            self.swept_upto(new, n, k + 1),
    {
        let s = self.node(n).sons[k];
        self.lemma_son(n, k);
        self.lemma_next_son_untouched(cur, n, k);
        assert(!self.within(n, s)) by {
            if self.under(n, s) {
                self.lemma_under_is_younger(n, s);
            }
        }
        cur.lemma_same_under(mid, n, s);
        self.lemma_same_under(cur, n, s);
        assert(mid.node(n) == cur.node(n));
        assert forall|x: usize| self.has(x) implies {
            &&& (#[trigger] new.node(x)).handles == self.node(x).handles
            &&& new.node(x).dead == self.node(x).dead
            &&& new.node(x).ancestors == self.node(x).ancestors
        } by {
            assert(mid.has(x));
            assert(mid.node(x).handles == cur.node(x).handles);
            assert(cur.node(x).handles == self.node(x).handles);
        }
        assert(self.same_frame(new));
        assert forall|x: usize| self.has(x) && self.among_first(n, k + 1, x) implies #[trigger]
        self.drained(new, x) by {
            let j = choose|j: int|
                0 <= j < k + 1 && j < self.node(n).sons.len() && self.within(
                    x,
                    #[trigger] self.node(n).sons[j],
                );
            let t = self.node(n).sons[j];
            self.lemma_son(n, j);
            assert(self.within(x, t));
            if j < k {
                assert(self.among_first(n, k, x));
                assert(self.drained(cur, x));
                assert(self.lists_its_own(n));
                self.lemma_branch_unchanged(cur, mid, new, n, t, s, x);
            } else {
                assert(self.agrees_within(cur, s));
                self.lemma_same_under(cur, x, s);
                self.lemma_same_linked(cur, n, s, x);
                self.lemma_within_agrees(cur, s, x);
                self.lemma_same_pending(cur, x);
                assert(cur.node(x) == self.node(x));
                if x != s {
                    assert(cur.drained(mid, x));
                    assert(x != n) by {
                        self.lemma_under_is_younger(x, s);
                    }
                    assert(new.node(x) == mid.node(x));
                }
                let was = self.node(x).sons;
                assert forall|i: int| 0 <= i < was.len() implies (!mid.spent(#[trigger] was[i]))
                    == (!new.spent(was[i])) by {
                    self.lemma_son(x, i);
                    self.lemma_under_is_younger(was[i], x);
                    if x != s {
                        self.lemma_under_is_younger(x, s);
                    }
                    assert(new.node(was[i]) == mid.node(was[i]));
                }
                lemma_filter_agrees(was, |y: usize| !mid.spent(y), |y: usize| !new.spent(y));
            }
        }
        assert forall|x: usize|
            self.has(x) && x != n && !self.among_first(n, k + 1, x) implies #[trigger] new.node(x)
            == self.node(x) by {
            if self.among_first(n, k, x) {
                let j = choose|j: int|
                    0 <= j < k && j < self.node(n).sons.len() && self.within(
                        x,
                        #[trigger] self.node(n).sons[j],
                    );
                assert(self.within(x, self.node(n).sons[j]));
                assert(false);
            }
            if self.within(x, s) {
                assert(self.within(x, self.node(n).sons[k]));
                assert(false);
            }
            self.lemma_same_under(cur, x, s);
            assert(cur.has(x) && !cur.within(x, s));
            assert(mid.node(x) == cur.node(x));
            assert(new.node(x) == mid.node(x));
        }
    }

    /// A branch that was drained earlier stays so while another one is drained.
    proof fn lemma_branch_unchanged(
        self,
        cur: Self,
        mid: Self,
        new: Self,
        n: usize,
        t: usize,
        s: usize,
        x: usize,
    )
        requires
            self.shaped(),
            self.has(n),
            self.has(s),
            self.has(t),
            self.has(x),
            0 < s,
            0 < t,
            s != t,
            self.father(s) == n,
            self.father(t) == n,
            self.within(x, t),
            self.same_frame(cur),
            cur.swept(mid, s),
            mid.same_frame(new),
            forall|y: usize|
                mid.has(y) && y != n && y != s ==> #[trigger] new.node(y) == mid.node(y),
            self.drained(cur, x),
        ensures
            self.drained(new, x),
    {
        assert forall|y: usize| self.has(y) && self.within(y, t) implies #[trigger] new.node(y)
            == cur.node(y) by {
            assert(y != n) by {
                assert(self.descends(t));
                if y != t {
                    self.lemma_under_is_younger(y, t);
                }
            }
            if self.within(y, s) {
                self.lemma_branches_part(y, n, s, t);
            }
            self.lemma_same_under(cur, y, s);
            assert(cur.has(y) && !cur.within(y, s));
            assert(mid.node(y) == cur.node(y));
            assert(mid.has(y));
        }
        assert(new.node(x) == cur.node(x));
        let was = self.node(x).sons;
        assert forall|i: int| 0 <= i < was.len() implies (!cur.spent(#[trigger] was[i]))
            == (!new.spent(was[i])) by {
            self.lemma_son(x, i);
            if x != t {
                self.lemma_under_trans(was[i], x, t);
            }
            assert(new.node(was[i]) == cur.node(was[i]));
        }
        lemma_filter_agrees(was, |y: usize| !cur.spent(y), |y: usize| !new.spent(y));
    }

    /// Trees that agree from `s` down agree from any node there down.
    proof fn lemma_within_agrees(self, other: Self, s: usize, x: usize)
        requires
            self.shaped(),
            self.agrees_within(other, s),
            self.has(x),
            self.within(x, s),
        ensures
            self.agrees_within(other, x),
    {
        if x != s {
            self.lemma_agrees_branch(other, s, x);
        }
    }

    /// With all sons drained, unlinking the spent ones completes the sweep.
    pub proof fn lemma_sweep_done(self, cur: Self, new: Self, n: usize)
        requires
            self.shaped(),
            self.has(n),
            self.swept_upto(cur, n, self.node(n).sons.len() as int),
            self.node(n).subtree_dirty,
            cur.same_frame(new),
            forall|x: usize| cur.has(x) && x != n ==> #[trigger] new.node(x) == cur.node(x),
            new.node(n).dirty == cur.node(n).dirty,
            new.node(n).subtree_dirty == cur.node(n).subtree_dirty,
            new.node(n).sons == cur.unspent(self.node(n).sons),
        ensures
            self.swept(new, n),
            new.shaped(),
    {
        let len = self.node(n).sons.len() as int;
        assert forall|x: usize| self.has(x) implies {
            &&& (#[trigger] new.node(x)).handles == self.node(x).handles
            &&& new.node(x).dead == self.node(x).dead
            &&& new.node(x).ancestors == self.node(x).ancestors
        } by {
            assert(cur.node(x).handles == self.node(x).handles);
        }
        assert forall|x: usize| self.has(x) && self.under(x, n) implies #[trigger] self.drained(
            new,
            x,
        ) by {
            self.lemma_under_is_younger(x, n);
            if self.among_first(n, len, x) {
                assert(self.drained(cur, x));
                let was = self.node(x).sons;
                assert forall|i: int| 0 <= i < was.len() implies (!cur.spent(#[trigger] was[i]))
                    == (!new.spent(was[i])) by {
                    self.lemma_son(x, i);
                    self.lemma_under_is_younger(was[i], x);
                    assert(new.node(was[i]) == cur.node(was[i]));
                }
                lemma_filter_agrees(was, |y: usize| !cur.spent(y), |y: usize| !new.spent(y));
            } else {
                if self.linked(x) {
                    self.lemma_branch(x, n);
                    let i = self.node(n).sons.index_of(self.branch(x, n));
                    assert(self.within(x, self.node(n).sons[i]));
                    assert(false);
                }
                assert(self.spent(x));
                self.lemma_stirred_by_sons(x);
                assert(!self.pending(x));
                assert(new.unspent(self.node(x).sons) =~= self.node(x).sons) by {
                    self.node(x).sons.lemma_filter_len(|s: usize| !new.spent(s));
                }
            }
        }
        let was = self.node(n).sons;
        assert forall|i: int| 0 <= i < was.len() implies (!cur.spent(#[trigger] was[i])) == (
        !new.spent(was[i])) by {
            self.lemma_son(n, i);
            assert(new.node(was[i]) == cur.node(was[i]));
        }
        lemma_filter_agrees(was, |y: usize| !cur.spent(y), |y: usize| !new.spent(y));
        assert forall|x: usize| self.has(x) && !self.within(x, n) implies #[trigger] new.node(x)
            == self.node(x) by {
            if self.among_first(n, len, x) {
                let j = choose|j: int|
                    0 <= j < len && j < self.node(n).sons.len() && self.within(
                        x,
                        #[trigger] self.node(n).sons[j],
                    );
                self.lemma_son(n, j);
                self.lemma_under_trans(x, self.node(n).sons[j], n);
            }
            assert(cur.node(x) == self.node(x));
        }
        self.lemma_swept_shaped(new, n);
    }

    /// A sweep leaves a sound shape.
    pub proof fn lemma_swept_shaped(self, new: Self, n: usize)
        requires
            self.shaped(),
            self.has(n),
            self.swept(new, n),
        ensures
            new.shaped(),
    {
        assert forall|x: usize| self.has(x) implies (#[trigger] new.node(x)).sons == self.node(
            x,
        ).sons || new.node(x).sons == new.unspent(self.node(x).sons) by {
            if self.under(x, n) {
                assert(self.drained(new, x));
            } else if x != n {
                assert(new.node(x) == self.node(x));
            }
        }
        assert forall|x: usize| self.has(x) && #[trigger] self.spent(x) implies new.spent(x) by {
            assert(new.node(x).handles == self.node(x).handles);
            self.node(x).sons.lemma_filter_len(|s: usize| !new.spent(s));
            if self.under(x, n) {
                assert(self.drained(new, x));
            } else if x != n {
                assert(new.node(x) == self.node(x));
            }
        }
        self.lemma_shape_kept(new);
    }

    /// With a clear flag there is nothing to sweep.
    pub proof fn lemma_sweep_of_nothing(self, n: usize)
        requires
            self.shaped(),
            self.has(n),
            self.coherent_below(n),
            !self.node(n).subtree_dirty,
        ensures
            self.swept(self, n),
            !self.stirred(n),
    {
        if self.stirred(n) {
            self.lemma_stirred_is_flagged(n);
        }
        assert forall|x: usize| self.has(x) && self.under(x, n) implies #[trigger] self.drained(
            self,
            x,
        ) by {
            if self.linked(x) {
                if self.node(x).dirty || self.node(x).subtree_dirty {
                    self.lemma_dirty_flags_up(x, n);
                }
                if self.stirred(x) {
                    self.lemma_coherent_branch(n, x);
                    self.lemma_stirred_is_flagged(x);
                }
            } else {
                assert(self.spent(x));
                self.lemma_stirred_by_sons(x);
                assert(!self.pending(x));
                self.node(x).sons.lemma_filter_len(|s: usize| !self.spent(s));
                assert(self.unspent(self.node(x).sons) =~= self.node(x).sons);
            }
        }
    }
}

impl<T: Clone> TreeState<T> {
    /// Where every node without handles is dead, a sweep keeps exactly those sons
    /// that are not vacant by then.
    pub proof fn lemma_sweep_leaves_no_vacancy(self, new: Self, x: usize)
        requires
            self.shaped(),
            self.marks_its_dead(),
            self.same_frame(new),
            self.has(x),
        ensures
            new.unspent(self.node(x).sons) == self.node(x).sons.filter(|s: usize| !new.vacant(s)),
    {
        let was = self.node(x).sons;
        assert forall|i: int| 0 <= i < was.len() implies (!new.spent(#[trigger] was[i])) == (
        !new.vacant(was[i])) by {
            self.lemma_son(x, i);
            assert(new.node(was[i]).handles == self.node(was[i]).handles);
            assert(self.node(was[i]).handles == 0 ==> self.node(was[i]).dead);
        }
        lemma_filter_agrees(was, |s: usize| !new.spent(s), |s: usize| !new.vacant(s));
    }

    /// Whether a node is dirty does not matter to what is below it.
    pub proof fn lemma_cleared_either_way(self, new: Self, n: usize, dirty: bool)
        requires
            self.shaped(),
            self.has(n),
            self.cleared(new, n),
        ensures
            self.cleared(new.with(n, (NodeState { dirty, ..new.node(n) })), n),
    {
        let other = new.with(n, (NodeState { dirty, ..new.node(n) }));
        assert forall|x: usize| self.has(x) && x != n implies #[trigger] other.node(x) == new.node(
            x,
        ) by {}
        assert forall|x: usize| self.has(x) implies {
            &&& (#[trigger] other.node(x)).handles == self.node(x).handles
            &&& other.node(x).dead == self.node(x).dead
            &&& other.node(x).ancestors == self.node(x).ancestors
        } by {
            assert(new.node(x).handles == self.node(x).handles);
        }
        assert forall|x: usize| self.has(x) && self.within(x, n) implies new.unspent(
            self.node(x).sons,
        ) == #[trigger] other.unspent(self.node(x).sons) by {
            let was = self.node(x).sons;
            assert forall|i: int| 0 <= i < was.len() implies (!new.spent(#[trigger] was[i])) == (
            !other.spent(was[i])) by {
                self.lemma_son(x, i);
                if x != n {
                    self.lemma_under_is_younger(x, n);
                }
                assert(other.node(was[i]) == new.node(was[i]));
            }
            lemma_filter_agrees(was, |s: usize| !new.spent(s), |s: usize| !other.spent(s));
        }
        assert forall|x: usize| self.has(x) && self.under(x, n) implies #[trigger] self.drained(
            other,
            x,
        ) by {
            self.lemma_under_is_younger(x, n);
            assert(self.drained(new, x));
            assert(new.unspent(self.node(x).sons) == other.unspent(self.node(x).sons));
        }
        assert(new.unspent(self.node(n).sons) == other.unspent(self.node(n).sons));
    }
}

} // verus!
