//! Walking the tree: raising flags on the way up, folding deltas from the deepest
//! node to the top, and unlinking what is spent.
use vstd::prelude::*;

use crate::climb::stays;
use crate::marks::Marks;
use crate::monoid::callable;
use crate::monoid::may_fold;
use crate::state::lemma_filter_agrees;
use crate::state::lemma_filter_holds;
use crate::state::lemma_filter_keeps_all;
use crate::state::NodeState;
use crate::state::TreeState;
use crate::sweep::lemma_filter_is_part;
use crate::tree::Tree;

verus! {

impl<T> TreeState<T> {
    /// `x` is an ancestor of `n` that a walk up from `n` comes to: no flag on
    /// the way to it is up.
    pub open spec fn climbs_to(self, n: usize, x: usize) -> bool {
        self.climbs_to_before(n, x, self.node(n).ancestors.len() as int)
    }

    /// `x` is one of the first `k` ancestors of `n`, and a walk up from `n`
    /// comes to it.
    pub open spec fn climbs_to_before(self, n: usize, x: usize, k: int) -> bool {
        let up = self.node(n).ancestors;
        exists|j: int|
            0 <= j < k && j < up.len() && #[trigger] up[j] == x && forall|i: int|
                0 <= i < j ==> !(self.node(#[trigger] up[i]).subtree_dirty)
    }

    /// The tree after a walk up from `n` that raises flags and stops at the
    /// first one that was up already.
    pub open spec fn marked(self, n: usize) -> Self {
        TreeState {
            nodes: Seq::new(
                self.nodes.len(),
                |x: int|
                    NodeState {
                        subtree_dirty: self.nodes[x].subtree_dirty || self.climbs_to(n, x as usize),
                        ..self.nodes[x]
                    },
            ),
            identity: self.identity,
        }
    }

    /// The tree after a list of sons of `n` was looked through for marked ones
    /// that nobody holds and that owe nothing.
    pub open spec fn reaped(self, n: usize, marked: Seq<usize>) -> Self {
        self.with(
            n,
            NodeState {
                sons: self.node(n).sons.filter(
                    |s: usize|
                        !(marked.contains(s) && self.node(s).handles == 0 && !self.node(s).dirty),
                ),
                ..self.node(n)
            },
        )
    }
}

impl<T> TreeState<T> {
    /// Folding the first `k` sons of `n` with `g` folds only values that `fits` allows
    /// together.
    pub open spec fn foldable_upto(
        self,
        fits: spec_fn(T, T) -> bool,
        g: spec_fn(T, T) -> T,
        n: usize,
        k: nat,
    ) -> bool
        decreases self.nodes.len() - n, k,
    {
        k == 0 || {
            let s = self.node(n).sons[k - 1];
            &&& self.foldable_upto(fits, g, n, (k - 1) as nat)
            &&& self.pending(s) && n < s && self.has(s) ==> {
                &&& self.foldable_upto(fits, g, s, self.node(s).sons.len())
                &&& fits(self.folded_upto(g, n, (k - 1) as nat), self.folded(g, s))
            }
        }
    }

    /// `merge` may be called wherever a read of `n` calls it, where `g` describes it.
    pub open spec fn foldable<M: Fn(&mut T, &T)>(
        self,
        merge: M,
        g: spec_fn(T, T) -> T,
        n: usize,
    ) -> bool {
        self.foldable_upto(|a: T, b: T| may_fold(merge, a, b), g, n, self.node(n).sons.len())
    }

    /// What may be folded may be folded in part.
    proof fn lemma_foldable_part(
        self,
        fits: spec_fn(T, T) -> bool,
        g: spec_fn(T, T) -> T,
        n: usize,
        j: nat,
        k: nat,
    )
        requires
            self.foldable_upto(fits, g, n, k),
            j <= k,
        ensures
            self.foldable_upto(fits, g, n, j),
        decreases k,
    {
        if j < k {
            self.lemma_foldable_part(fits, g, n, j, (k - 1) as nat);
        }
    }

    /// Where no son has anything to deliver, nothing is folded.
    proof fn lemma_foldable_still(
        self,
        fits: spec_fn(T, T) -> bool,
        g: spec_fn(T, T) -> T,
        n: usize,
        k: nat,
    )
        requires
            self.shaped(),
            self.has(n),
            !self.stirred(n),
            k <= self.node(n).sons.len(),
        ensures
            self.foldable_upto(fits, g, n, k),
        decreases k,
    {
        self.lemma_stirred_by_sons(n);
        if k > 0 {
            self.lemma_foldable_still(fits, g, n, (k - 1) as nat);
            assert(!self.pending(self.node(n).sons[k - 1]));
        }
    }

    /// What is folded depends on that part of the tree alone.
    proof fn lemma_same_foldable(
        self,
        other: Self,
        fits: spec_fn(T, T) -> bool,
        g: spec_fn(T, T) -> T,
        n: usize,
        k: nat,
    )
        requires
            self.shaped(),
            self.same_frame(other),
            self.has(n),
            self.agrees_within(other, n),
            k <= self.node(n).sons.len(),
        ensures
            self.foldable_upto(fits, g, n, k) == other.foldable_upto(fits, g, n, k),
        decreases self.nodes.len() - n, k,
    {
        assert(other.node(n) == self.node(n));
        if k > 0 {
            self.lemma_same_foldable(other, fits, g, n, (k - 1) as nat);
            self.lemma_same_folded(other, g, n, (k - 1) as nat);
            let s = self.node(n).sons[k - 1];
            self.lemma_son(n, k - 1);
            self.lemma_agrees_branch(other, n, s);
            self.lemma_same_pending(other, s);
            assert(other.node(s) == self.node(s));
            self.lemma_same_foldable(other, fits, g, s, self.node(s).sons.len());
            self.lemma_same_folded(other, g, s, self.node(s).sons.len());
        }
    }

    /// What folding `n` calls for at son `i`: all that folding the son itself calls
    /// for, and one call more if the son has something to deliver.
    proof fn lemma_foldable_son<M: Fn(&mut T, &T)>(
        self,
        merge: M,
        g: spec_fn(T, T) -> T,
        n: usize,
        i: int,
    )
        requires
            self.shaped(),
            self.has(n),
            self.foldable(merge, g, n),
            0 <= i < self.node(n).sons.len(),
        ensures
            self.foldable(merge, g, self.node(n).sons[i]),
            self.pending(self.node(n).sons[i]) ==> may_fold(
                merge,
                self.folded_upto(g, n, i as nat),
                self.folded(g, self.node(n).sons[i]),
            ),
    {
        let s = self.node(n).sons[i];
        let fits = |a: T, b: T| may_fold(merge, a, b);
        self.lemma_son(n, i);
        self.lemma_foldable_part(fits, g, n, (i + 1) as nat, self.node(n).sons.len());
        if !self.pending(s) {
            self.lemma_foldable_still(fits, g, s, self.node(s).sons.len());
        }
    }
}

impl<T, M> Tree<T, M> {
    /// Flags every ancestor of `n` as having a dirty descendant. Stops at the
    /// first one that was already flagged: whoever raised that flag went on, or
    /// is going on, to the ones above it.
    pub(crate) fn mark_ancestors(&mut self, n: usize)
        requires
            old(self)@.shaped(),
            old(self)@.has(n),
            old(self).stores(n),
            forall|i: int|
                0 <= i < old(self)@.node(n).ancestors.len() ==> old(self).stores(
                    #[trigger] old(self)@.node(n).ancestors[i],
                ),
        ensures
            final(self)@ == old(self)@.marked(n),
            final(self).like(*old(self)),
    {
        let ghost before = self@;
        let ghost up = before.node(n).ancestors;
        let mut i: usize = 0;
        while i < self.depth(n)
            invariant
                before == old(self)@,
                before.shaped(),
                before.has(n),
                up == before.node(n).ancestors,
                0 <= i <= up.len(),
                self.like(*old(self)),
                old(self).stores(n),
                forall|j: int| 0 <= j < up.len() ==> old(self).stores(#[trigger] up[j]),
                self@.nodes.len() == before.nodes.len(),
                self@.identity == before.identity,
                forall|j: int| 0 <= j < i ==> !(before.node(#[trigger] up[j]).subtree_dirty),
                forall|x: usize|
                    before.has(x) ==> #[trigger] self@.node(x) == (NodeState {
                        subtree_dirty: before.node(x).subtree_dirty || before.climbs_to_before(
                            n,
                            x,
                            i as int,
                        ),
                        ..before.node(x)
                    }),
            decreases up.len() - i,
        {
            let ghost here = self@;
            assert(self.stores(n));
            assert(self@.node(n).ancestors == up);
            let a = self.ancestor(n, i);
            assert(old(self).stores(up[i as int]));
            assert(self.stores(a));
            proof {
                before.lemma_ancestor(n, i as int);
            }
            let was: bool = self.swap_subtree_dirty(a, true);
            proof {
                assert(was == before.node(a).subtree_dirty) by {
                    if before.climbs_to_before(n, a, i as int) {
                        let j = choose|j: int|
                            0 <= j < i && j < up.len() && #[trigger] up[j] == a && forall|k: int|
                                0 <= k < j ==> !(before.node(#[trigger] up[k]).subtree_dirty);
                        before.lemma_ancestors_differ(n, j, i as int);
                    }
                }
                assert forall|x: usize| before.has(x) implies #[trigger] self@.node(x) == (
                NodeState {
                    subtree_dirty: before.node(x).subtree_dirty || before.climbs_to_before(
                        n,
                        x,
                        i + 1,
                    ),
                    ..before.node(x)
                }) by {
                    assert(here.node(x) == (NodeState {
                        subtree_dirty: before.node(x).subtree_dirty || before.climbs_to_before(
                            n,
                            x,
                            i as int,
                        ),
                        ..before.node(x)
                    }));
                    if x == a {
                        assert(up[i as int] == a);
                        assert(before.climbs_to_before(n, x, i + 1));
                    } else {
                        assert(before.climbs_to_before(n, x, i + 1) ==> before.climbs_to_before(
                            n,
                            x,
                            i as int,
                        ));
                    }
                }
            }
            if was {
                proof {
                    assert forall|x: usize| before.has(x) implies before.climbs_to(n, x)
                        == #[trigger] before.climbs_to_before(n, x, i + 1) by {
                        if before.climbs_to(n, x) {
                            let j = choose|j: int|
                                0 <= j < up.len() && #[trigger] up[j] == x && forall|k: int|
                                    0 <= k < j ==> !(before.node(#[trigger] up[k]).subtree_dirty);
                            assert(j <= i) by {
                                if i < j {
                                    assert(before.node(up[i as int]).subtree_dirty);
                                }
                            }
                        }
                    }
                    assert forall|x: int| 0 <= x < before.nodes.len() implies #[trigger] self@.nodes[x]
                        == before.marked(n).nodes[x] by {
                        assert(self@.node(x as usize) == self@.nodes[x]);
                        assert(before.climbs_to(n, x as usize) == before.climbs_to_before(
                            n,
                            x as usize,
                            i + 1,
                        ));
                    }
                    assert(self@ =~= before.marked(n));
                }
                return ;
            }
            i = i + 1;
        }
        proof {
            assert forall|x: int| 0 <= x < before.nodes.len() implies #[trigger] self@.nodes[x]
                == before.marked(n).nodes[x] by {
                assert(self@.node(x as usize) == self@.nodes[x]);
            }
            assert(self@ =~= before.marked(n));
        }
    }

    /// A node with no handles left, nothing pending, and nothing underneath it.
    /// Anything less and unlinking it would lose data or orphan a live writer.
    pub(crate) fn is_spent(&self, n: usize) -> (spent: bool)
        requires
            self.stores(n),
            self@.has(n),
        ensures
            spent == self@.spent(n),
            self@.marks_its_dead() ==> spent == self@.vacant(n),
    {
        self.load_dead(n) && self.load_handles(n) == 0 && !self.load_dirty(n) && self.has_no_sons(n)
    }

    /// Unlinks the marked sons of `n`, and returns those that were unlinked. A dead
    /// son is removed and not kept as a tombstone, so the list stays the length of the
    /// live sons.
    pub(crate) fn reap(&mut self, n: usize, spent: Vec<usize>) -> (gone: Vec<usize>)
        requires
            old(self)@.has(n),
            old(self)@.lists_its_own(n),
            old(self).stores(n),
            forall|i: int|
                0 <= i < old(self)@.node(n).sons.len() ==> old(self).stores(
                    #[trigger] old(self)@.node(n).sons[i],
                ),
        ensures
            final(self)@ == old(self)@.reaped(n, spent@),
            final(self).like(*old(self)),
            gone@ == old(self)@.node(n).sons.filter(
                |s: usize|
                    spent@.contains(s) && old(self)@.node(s).handles == 0 && !old(self)@.node(
                        s,
                    ).dirty,
            ),
    {
        let ghost keep = |s: usize|
            !(spent@.contains(s) && old(self)@.node(s).handles == 0 && !old(self)@.node(s).dirty);
        let ghost goes = |s: usize|
            spent@.contains(s) && old(self)@.node(s).handles == 0 && !old(self)@.node(s).dirty;
        let sons = self.snapshot_sons(n);
        let marks = Marks::new(spent);
        let mut kept: Vec<usize> = Vec::new();
        let mut gone: Vec<usize> = Vec::new();
        let mut i: usize = 0;
        proof {
            reveal(Seq::filter);
            assert(sons@.take(0) =~= Seq::empty());
        }
        while i < sons.len()
            invariant
                0 <= i <= sons@.len(),
                sons@ == old(self)@.node(n).sons,
                old(self)@.lists_its_own(n),
                *self == *old(self),
                forall|j: int| 0 <= j < sons@.len() ==> old(self).stores(#[trigger] sons@[j]),
                forall|key: usize| #[trigger] marks.has(key) == spent@.contains(key),
                keep == (|s: usize|
                    !(spent@.contains(s) && old(self)@.node(s).handles == 0 && !old(self)@.node(
                        s,
                    ).dirty)),
                goes == (|s: usize|
                    spent@.contains(s) && old(self)@.node(s).handles == 0 && !old(self)@.node(
                        s,
                    ).dirty),
                kept@ == sons@.take(i as int).filter(keep),
                gone@ == sons@.take(i as int).filter(goes),
            decreases sons@.len() - i,
        {
            let s: usize = sons[i];
            proof {
                reveal(Seq::filter);
                assert(old(self).stores(sons@[i as int]));
                assert(sons@.take(i + 1).drop_last() =~= sons@.take(i as int));
                assert(sons@.take(i + 1).last() == s);
            }
            // The flags are looked at again, but not the son's own sons: a new
            // one can only be registered through a handle, and there is none.
            if stays(marks.contains(s), self.load_handles(s), self.load_dirty(s)) {
                kept.push(s);
            } else {
                gone.push(s);
            }
            i = i + 1;
        }
        assert(sons@.take(i as int) =~= sons@);
        self.store_sons(n, kept);
        gone
    }

    /// Unlinks the marked sons of `n`, and frees those that were unlinked.
    pub(crate) fn cut(&mut self, n: usize, spent: Vec<usize>)
        requires
            old(self)@.has(n),
            old(self)@.shaped(),
            old(self)@.linked(n),
            old(self).neat(),
        ensures
            final(self)@ == old(self)@.reaped(n, spent@),
            final(self).merge() == old(self).merge(),
            final(self).neat(),
    {
        let ghost before = self@;
        let ghost sons = before.node(n).sons;
        let ghost goes = |s: usize|
            spent@.contains(s) && before.node(s).handles == 0 && !before.node(s).dirty;
        proof {
            assert(before.lists_its_own(n));
            assert forall|i: int| 0 <= i < sons.len() implies self.stores(#[trigger] sons[i]) by {
                before.lemma_son(n, i);
            }
        }
        let gone = self.reap(n, spent);
        let ghost cut = *self;
        let mut i: usize = 0;
        proof {
            lemma_filter_is_part(sons, goes);
            assert forall|j: int| 0 <= j < gone@.len() implies cut.stores(#[trigger] gone@[j]) by {
                assert(sons.contains(gone@[j]));
                let k = sons.index_of(gone@[j]);
                before.lemma_son(n, k);
                assert(old(self).stores(sons[k]));
            }
        }
        while i < gone.len()
            invariant
                0 <= i <= gone@.len(),
                self@ == cut@,
                self.merge() == cut.merge(),
                gone@.no_duplicates(),
                forall|j: int| 0 <= j < gone@.len() ==> cut.stores(#[trigger] gone@[j]),
                forall|x: usize| #[trigger]
                    self.stores(x) == (cut.stores(x) && !gone@.take(i as int).contains(x)),
            decreases gone@.len() - i,
        {
            let s: usize = gone[i];
            proof {
                assert(cut.stores(gone@[i as int]));
                if gone@.take(i as int).contains(s) {
                    let j = gone@.take(i as int).index_of(s);
                    assert(gone@[j] == s);
                }
            }
            self.free(s);
            proof {
                assert forall|x: usize| #[trigger]
                    gone@.take(i + 1).contains(x) == (gone@.take(i as int).contains(x) || x == s) by {
                    if gone@.take(i as int).contains(x) {
                        let j = gone@.take(i as int).index_of(x);
                        assert(gone@.take(i + 1)[j] == x);
                    }
                    assert(gone@.take(i + 1)[i as int] == s);
                    if gone@.take(i + 1).contains(x) {
                        let j = gone@.take(i + 1).index_of(x);
                        if j < i {
                            assert(gone@.take(i as int)[j] == x);
                        }
                    }
                }
            }
            i = i + 1;
        }
        proof {
            assert(gone@.take(i as int) =~= gone@);
            assert forall|x: usize| self@.has(x) implies #[trigger] self.stores(x) == self@.linked(
                x,
            ) by {
                before.lemma_reaped_linked(n, spent@, x);
                assert(old(self).stores(x) == before.linked(x));
                assert(cut.stores(x) == old(self).stores(x));
            }
        }
    }
}

impl<T> TreeState<T> {
    /// What is unlinked is what leaves the list.
    pub proof fn lemma_reaped_linked(self, n: usize, marked: Seq<usize>, x: usize)
        requires
            self.shaped(),
            self.has(n),
            self.has(x),
        ensures
            self.reaped(n, marked).linked(x) == (self.linked(x) && !self.node(n).sons.filter(
                |s: usize|
                    marked.contains(s) && self.node(s).handles == 0 && !self.node(s).dirty,
            ).contains(x)),
    {
        let new = self.reaped(n, marked);
        let sons = self.node(n).sons;
        let goes = |s: usize|
            marked.contains(s) && self.node(s).handles == 0 && !self.node(s).dirty;
        let keep = |s: usize|
            !(marked.contains(s) && self.node(s).handles == 0 && !self.node(s).dirty);
        assert(self.lists_its_own(n));
        assert(sons.filter(goes).contains(x) == (sons.contains(x) && goes(x))) by {
            lemma_filter_holds(sons, goes, x);
        }
        assert(sons.filter(keep).contains(x) == (sons.contains(x) && keep(x))) by {
            lemma_filter_holds(sons, keep, x);
        }
        if sons.contains(x) {
            let i = sons.index_of(x);
            self.lemma_son(n, i);
        }
        if 0 < x {
            assert(self.descends(x));
            assert(new.node(x).ancestors == self.node(x).ancestors);
        }
    }
}

impl<T: Clone, M: Fn(&mut T, &T)> Tree<T, M> {
    /// Folds every dirty descendant into `n`, deepest first, and unlinks what is
    /// spent. Returns whether the data of `n` changed.
    pub(crate) fn merge_sons(&mut self, n: usize) -> (changed: bool)
        requires
            old(self)@.shaped(),
            old(self)@.has(n),
            old(self)@.coherent_below(n),
            old(self).neat(),
            old(self)@.linked(n),
            callable(old(self).merge()) || exists|g: spec_fn(T, T) -> T| #[trigger]
                old(self)@.foldable(old(self).merge(), g, n) && forall|father: &mut T, son: &T|
                    #[trigger]
                    call_ensures(old(self).merge(), (father, son), ()) ==> *final(father) == g(
                        *father,
                        *son,
                    ),
        ensures
            final(self).merge() == old(self).merge(),
            final(self).neat(),
            final(self)@.shaped(),
            old(self)@.swept(final(self)@, n),
            old(self)@.marks_its_dead() && old(self)@.node(n).subtree_dirty
                ==> final(self)@.node(n).sons == old(self)@.node(n).sons.filter(
                |s: usize| !final(self)@.vacant(s),
            ),
            forall|g: spec_fn(T, T) -> T|
                (forall|father: &mut T, son: &T| #[trigger]
                    call_ensures(old(self).merge(), (father, son), ()) ==> *final(father) == g(
                        *father,
                        *son,
                    )) ==> final(self)@.node(n).data == #[trigger] old(self)@.folded(g, n),
            !old(self)@.stirred(n) ==> final(self)@.node(n).data == old(self)@.node(n).data,
            changed == old(self)@.stirred(n),
        decreases old(self)@.nodes.len() - n,
    {
        let ghost before = self@;
        let ghost begun = *self;
        let ghost merge = self.merge();
        assert(self.stores(n));
        let ghost known = choose|g: spec_fn(T, T) -> T| #[trigger]
            before.foldable(merge, g, n) && forall|father: &mut T, son: &T| #[trigger]
                call_ensures(merge, (father, son), ()) ==> *final(father) == g(*father, *son);
        if !self.swap_subtree_dirty(n, false) {
            proof {
                before.lemma_sweep_of_nothing(n);
                assert(self@ =~= before);
                self.lemma_stays_neat(begun);
                assert forall|g: spec_fn(T, T) -> T| #[trigger] before.folded(g, n) == before.node(
                    n,
                ).data by {
                    before.lemma_folded_still(g, n, before.node(n).sons.len());
                }
            }
            return false;
        }
        proof {
            self.lemma_stays_neat(begun);
            before.lemma_same_lists(self@, n);
        }
        let sons = self.snapshot_sons(n);
        let mut changed: bool = false;
        let mut spent: Vec<usize> = Vec::new();
        let mut i: usize = 0;
        while i < sons.len()
            invariant
                before == old(self)@,
                before.shaped(),
                before.has(n),
                before.coherent_below(n),
                before.node(n).subtree_dirty,
                sons@ == before.node(n).sons,
                0 <= i <= sons@.len(),
                merge == old(self).merge(),
                self.merge() == merge,
                self.neat(),
                self@.linked(n),
                callable(merge) || before.foldable(merge, known, n) && forall|
                    father: &mut T,
                    son: &T,
                | #[trigger]
                    call_ensures(merge, (father, son), ()) ==> *final(father) == known(
                        *father,
                        *son,
                    ),
                before.swept_upto(self@, n, i as int),
                changed == exists|j: int| 0 <= j < i && #[trigger] before.pending(sons@[j]),
                !changed ==> self@.node(n).data == before.node(n).data,
                forall|s: usize| #[trigger]
                    spent@.contains(s) ==> self@.spent(s) && sons@.take(i as int).contains(s),
                forall|j: int|
                    0 <= j < i && self@.spent(#[trigger] sons@[j]) ==> spent@.contains(sons@[j]),
                forall|g: spec_fn(T, T) -> T|
                    (forall|father: &mut T, son: &T| #[trigger]
                        call_ensures(old(self).merge(), (father, son), ()) ==> *final(father) == g(
                            *father,
                            *son,
                        )) ==> self@.node(n).data == #[trigger] before.folded_upto(
                        g,
                        n,
                        i as nat,
                    ),
            decreases sons@.len() - i,
        {
            let ghost cur = self@;
            let s: usize = sons[i];
            proof {
                assert(cur.node(n).sons[i as int] == s);
                before.lemma_son(n, i as int);
                before.lemma_swept_upto_shaped(cur, n, i as int);
                before.lemma_next_son_untouched(cur, n, i as int);
                before.lemma_next_son_coherent(cur, n, i as int);
                before.lemma_same_pending(cur, s);
                assert(cur.node(s) == before.node(s));
                if !callable(merge) {
                    before.lemma_foldable_son(merge, known, n, i as int);
                    before.lemma_same_foldable(
                        cur,
                        |a: T, b: T| may_fold(merge, a, b),
                        known,
                        s,
                        before.node(s).sons.len(),
                    );
                    assert(cur.foldable(merge, known, s));
                }
            }
            assert(cur.linked(s)) by {
                before.lemma_swept_upto_shaped(cur, n, i as int);
                cur.lemma_son(n, i as int);
            }
            // the grandsons first: a son that absorbs one is itself out of sync
            let son_changed: bool = self.merge_sons(s);
            let ghost mid = self@;
            let ghost back = *self;
            proof {
                before.lemma_same_under(cur, n, s);
                if before.under(n, s) {
                    before.lemma_under_is_younger(n, s);
                }
                assert(mid.node(n) == cur.node(n));
                assert(mid.linked(s) && mid.linked(n)) by {
                    assert(mid.node(n).sons[i as int] == s);
                    mid.lemma_son(n, i as int);
                    if 0 < n {
                        assert(cur.descends(n));
                        let f = cur.father(n);
                        if cur.under(f, s) {
                            cur.lemma_under_is_younger(f, s);
                        }
                        assert(mid.node(f) == cur.node(f));
                    }
                }
                assert(self.stores(s) && self.stores(n));
                assert forall|g: spec_fn(T, T) -> T| #[trigger] cur.folded(g, s) == before.folded(g, s) by {
                    before.lemma_same_folded(cur, g, s, before.node(s).sons.len());
                }
            }
            if self.load_dirty(s) || son_changed {
                let delta = self.take(s);
                let ghost taken = self@;
                proof {
                    if !callable(merge) {
                        assert(before.pending(s));
                        assert(delta == cur.folded(known, s));
                        assert(cur.folded(known, s) == before.folded(known, s));
                        assert(taken.node(n).data == before.folded_upto(known, n, i as nat));
                    }
                }
                self.fold(n, &delta);
                changed = true;
                proof {
                    assert forall|g: spec_fn(T, T) -> T|
                        (forall|father: &mut T, son: &T| #[trigger]
                            call_ensures(old(self).merge(), (father, son), ()) ==> *final(father)
                                == g(*father, *son)) implies self@.node(n).data == g(
                        cur.node(n).data,
                        #[trigger] before.folded(g, s),
                    ) by {
                        assert(delta == cur.folded(g, s));
                        assert(self@.node(n).data == g(taken.node(n).data, delta));
                    }
                }
            }
            let ghost data_now = self@.node(n).data;
            proof {
                self.lemma_stays_neat(back);
                back@.lemma_same_lists(self@, n);
                before.lemma_sweep_one_more(cur, mid, self@, n, i as int);
                assert(changed == exists|j: int| 0 <= j < i + 1 && #[trigger] before.pending(sons@[j])) by {
                    assert(before.pending(sons@[i as int]) == (mid.node(s).dirty || son_changed));
                }
                assert forall|j: int| 0 <= j < i implies self@.node(#[trigger] sons@[j]) == cur.node(
                    sons@[j],
                ) by {
                    let t = sons@[j];
                    before.lemma_son(n, j);
                    assert(before.lists_its_own(n));
                    before.lemma_same_under(cur, t, s);
                    if before.within(t, s) {
                        before.lemma_branches_part(t, n, s, t);
                    }
                    assert(mid.node(t) == cur.node(t));
                }
                assert forall|t: usize| sons@.take(i as int).contains(t) implies
                    #[trigger] sons@.take(i + 1).contains(t) && self@.spent(t) == cur.spent(t) by {
                    let j = sons@.take(i as int).index_of(t);
                    assert(sons@[j] == t);
                    assert(sons@.take(i + 1)[j] == t);
                }
                assert(sons@.take(i + 1)[i as int] == s);
            }
            let ghost spent_before = spent@;
            // folded and empty-handed: this is the moment it becomes reapable
            if self.is_spent(s) {
                spent.push(s);
                proof {
                    assert(spent@[spent_before.len() as int] == s);
                    assert forall|t: usize|
                        spent_before.contains(t) implies #[trigger] spent@.contains(t) by {
                        let j = spent_before.index_of(t);
                        assert(spent@[j] == t);
                    }
                    assert forall|t: usize| #[trigger]
                        spent@.contains(t) implies t == s || spent_before.contains(t) by {
                        let j = spent@.index_of(t);
                        if j < spent_before.len() {
                            assert(spent_before[j] == t);
                        }
                    }
                }
            }
            i = i + 1;
            proof {
                assert(self@.node(n).data == data_now);
                assert forall|g: spec_fn(T, T) -> T|
                    (forall|father: &mut T, son: &T| #[trigger]
                        call_ensures(old(self).merge(), (father, son), ()) ==> *final(father) == g(
                            *father,
                            *son,
                        )) implies self@.node(n).data == #[trigger] before.folded_upto(
                    g,
                    n,
                    i as nat,
                ) by {
                    assert(cur.node(n).data == before.folded_upto(g, n, (i - 1) as nat));
                    assert(before.node(n).sons[i - 1] == s);
                    if before.pending(s) {
                        assert(self@.node(n).data == g(cur.node(n).data, before.folded(g, s)));
                    }
                }
            }
        }
        let ghost cur = self@;
        proof {
            before.lemma_swept_upto_shaped(cur, n, i as int);
            before.lemma_stirred_by_sons(n);
            assert(cur.lists_its_own(n));
            assert forall|j: int| 0 <= j < sons@.len() implies cur.spent(#[trigger] sons@[j]) == (
            spent@.contains(sons@[j]) && cur.node(sons@[j]).handles == 0 && !cur.node(
                sons@[j],
            ).dirty) by {
            }
            lemma_filter_agrees(
                sons@,
                |s: usize| !cur.spent(s),
                |s: usize|
                    !(spent@.contains(s) && cur.node(s).handles == 0 && !cur.node(s).dirty),
            );
        }
        if spent.len() > 0 {
            self.cut(n, spent);
        } else {
            proof {
                lemma_filter_keeps_all(sons@, |s: usize| !cur.spent(s));
            }
        }
        proof {
            before.lemma_sweep_done(cur, self@, n);
            if before.marks_its_dead() {
                before.lemma_sweep_leaves_no_vacancy(self@, n);
            }
        }
        changed
    }
}

impl<T, M> Tree<T, M> {
    /// Whether any strict descendant of `n` is dirty. A clear flag answers at
    /// once, whatever the size of the subtree.
    pub(crate) fn check_children(&self, n: usize) -> (found: bool)
        requires
            self@.shaped(),
            self@.has(n),
            self@.coherent_below(n),
            self.neat(),
            self@.linked(n),
        ensures
            found == self@.stirred(n),
        decreases self@.nodes.len() - n,
    {
        if !self.load_subtree_dirty(n) {
            proof {
                if self@.stirred(n) {
                    self@.lemma_stirred_is_flagged(n);
                }
            }
            return false;
        }
        let sons = self.snapshot_sons(n);
        let mut i: usize = 0;
        proof {
            self@.lemma_stirred_by_sons(n);
        }
        while i < sons.len()
            invariant
                self@.shaped(),
                self@.has(n),
                self@.coherent_below(n),
                self.neat(),
                sons@ == self@.node(n).sons,
                0 <= i <= sons@.len(),
                forall|j: int| 0 <= j < i ==> !#[trigger] self@.pending(sons@[j]),
                self@.stirred(n) <==> exists|j: int|
                    0 <= j < sons@.len() && #[trigger] self@.pending(sons@[j]),
            decreases sons@.len() - i,
        {
            let s: usize = sons[i];
            proof {
                self@.lemma_son(n, i as int);
                self@.lemma_coherent_branch(n, s);
            }
            if self.load_dirty(s) || self.check_children(s) {
                assert(self@.pending(sons@[i as int]));
                return true;
            }
            assert(!self@.pending(sons@[i as int]));
            i = i + 1;
        }
        false
    }
}

impl<T> TreeState<T> {
    /// Every entry in a list of ancestors is a node above.
    pub proof fn lemma_ancestor(self, n: usize, i: int)
        requires
            self.shaped(),
            self.has(n),
            0 <= i < self.node(n).ancestors.len(),
        ensures
            self.has(self.node(n).ancestors[i]),
            self.under(n, self.node(n).ancestors[i]),
            self.node(n).ancestors[i] < n,
    {
        let a = self.node(n).ancestors[i];
        assert(self.node(n).ancestors.contains(a));
        self.lemma_under_is_younger(n, a);
    }

    /// The entries of a list of ancestors descend.
    pub proof fn lemma_ancestors_differ(self, n: usize, i: int, j: int)
        requires
            self.shaped(),
            self.has(n),
            0 <= i < j < self.node(n).ancestors.len(),
        ensures
            self.node(n).ancestors[j] < self.node(n).ancestors[i],
        decreases n,
    {
        assert(self.descends(n));
        let f = self.father(n);
        let up = self.node(f).ancestors;
        assert(self.node(n).ancestors[j] == up[j - 1]);
        if i == 0 {
            self.lemma_ancestor(f, j - 1);
        } else {
            assert(self.node(n).ancestors[i] == up[i - 1]);
            self.lemma_ancestors_differ(f, i - 1, j - 1);
        }
    }
}

} // verus!
