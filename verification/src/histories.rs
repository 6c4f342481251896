//! What the owner of a tree does with it, one operation after another.
use vstd::prelude::*;

use crate::monoid::clones_as_itself;
use crate::monoid::commutative_monoid;
use crate::state::lemma_filter_agrees;
use crate::state::lemma_filter_keeps_all;
use crate::state::NodeState;
use crate::state::TreeState;

verus! {

/// One operation on a tree, through a handle to the node that is named.
#[verifier::reject_recursive_types(T)]
pub enum Op<T> {
    /// A write that makes another value of the data. An overwrite makes the same of
    /// any data.
    Update(usize, spec_fn(T) -> T),
    /// A read.
    Read(usize),
    /// A new son is registered.
    Register(usize),
    /// A handle is cloned.
    Share(usize),
    /// A handle is given up.
    Release(usize),
}

impl<T: Clone> TreeState<T> {
    /// The operation may be done now.
    pub open spec fn permits(self, op: Op<T>) -> bool {
        match op {
            Op::Update(n, f) => self.held(n),
            Op::Read(n) => self.held(n),
            Op::Register(n) => self.held(n) && self.nodes.len() < usize::MAX,
            Op::Share(n) => self.held(n) && self.node(n).handles < usize::MAX,
            Op::Release(n) => self.held(n),
        }
    }

    /// The operation makes `new` of this tree.
    pub open spec fn turns(self, g: spec_fn(T, T) -> T, op: Op<T>, new: Self) -> bool {
        match op {
            Op::Update(n, f) => new == self.written(n, f(self.node(n).data)),
            Op::Read(n) => self.read(g, new, n),
            Op::Register(n) => new == self.grown(n, self.identity),
            Op::Share(n) => new == self.shared(n),
            Op::Release(n) => new == self.released(n),
        }
    }

    /// From this tree on, the operations lead through the given trees.
    pub open spec fn lived(
        self,
        g: spec_fn(T, T) -> T,
        ops: Seq<Op<T>>,
        trees: Seq<Self>,
    ) -> bool {
        &&& trees.len() == ops.len() + 1
        &&& trees[0] == self
        &&& forall|k: int|
            0 <= k < ops.len() ==> trees[k].permits(#[trigger] ops[k]) && trees[k].turns(
                g,
                ops[k],
                trees[k + 1],
            )
    }
}

impl<T> TreeState<T> {
    /// Two trees hold the same: node for node the same data, the same dirty bit,
    /// and the same ancestors. Handles, and what is linked, may differ.
    pub open spec fn holds_alike(self, other: Self) -> bool {
        &&& other.nodes.len() == self.nodes.len()
        &&& other.identity == self.identity
        &&& forall|x: usize|
            self.has(x) ==> {
                &&& (#[trigger] other.node(x)).data == self.node(x).data
                &&& other.node(x).dirty == self.node(x).dirty
                &&& other.node(x).ancestors == self.node(x).ancestors
            }
    }

    proof fn lemma_alike_stirred(self, other: Self, n: usize)
        requires
            self.holds_alike(other),
            self.has(n),
        ensures
            other.stirred(n) == self.stirred(n),
    {
        if self.stirred(n) {
            let x = choose|x: usize| self.has(x) && #[trigger] self.under(x, n) && self.node(x).dirty;
            assert(other.node(x).dirty);
            assert(other.under(x, n));
        }
        if other.stirred(n) {
            let x = choose|x: usize|
                other.has(x) && #[trigger] other.under(x, n) && other.node(x).dirty;
            assert(other.node(x).dirty == self.node(x).dirty);
            assert(self.under(x, n));
        }
    }
}

impl<T: Clone> TreeState<T> {
    /// Sound trees that hold the same read the same.
    pub proof fn law_what_holds_alike_reads_alike(
        self,
        other: Self,
        g: spec_fn(T, T) -> T,
        n: usize,
    )
        requires
            self.sound(),
            other.sound(),
            self.holds_alike(other),
            self.has(n),
            commutative_monoid(g, self.identity),
            clones_as_itself(self.identity),
        ensures
            other.folded(g, n) == self.folded(g, n),
            other.stirred(n) == self.stirred(n),
    {
        self.lemma_subtotal(g, n);
        other.lemma_subtotal(g, n);
        assert forall|x: int| 0 <= x < self.nodes.len() implies #[trigger] other.holdings_within(
            n,
        )[x] == self.holdings_within(n)[x] by {
            let y = x as usize;
            assert(other.node(y).ancestors == self.node(y).ancestors);
            assert(other.nodes[x] == other.node(y) && self.nodes[x] == self.node(y));
        }
        assert(other.holdings_within(n) =~= self.holdings_within(n));
        self.lemma_alike_stirred(other, n);
    }

    /// An operation keeps a tree sound.
    pub proof fn lemma_turn_sound(self, g: spec_fn(T, T) -> T, op: Op<T>, new: Self)
        requires
            self.sound(),
            self.permits(op),
            self.turns(g, op, new),
        ensures
            new.sound(),
            new.identity == self.identity,
    {
        match op {
            Op::Update(n, f) => {
                self.lemma_written_sound(n, f(self.node(n).data));
            },
            Op::Read(n) => {
                self.lemma_read_sound(g, new, n);
            },
            Op::Register(n) => {
                self.lemma_grown_sound(n, self.identity);
            },
            Op::Share(n) => {
                let handles = (self.node(n).handles + 1) as usize;
                self.lemma_handles_sound(n, handles, self.node(n).dead);
                assert(new == self.shared(n));
            },
            Op::Release(n) => {
                let left = (self.node(n).handles - 1) as usize;
                self.lemma_handles_sound(n, left, self.node(n).dead || left == 0);
            },
        }
    }

}

/// Filtering twice is filtering once by both tests.
proof fn lemma_filter_twice<A>(s: Seq<A>, p: spec_fn(A) -> bool, q: spec_fn(A) -> bool)
    ensures
        s.filter(p).filter(q) == s.filter(|a: A| p(a) && q(a)),
    decreases s.len(),
{
    reveal(Seq::filter);
    if s.len() > 0 {
        let init = s.drop_last();
        lemma_filter_twice(init, p, q);
        if p(s.last()) {
            assert(init.filter(p).push(s.last()).drop_last() =~= init.filter(p));
        }
    }
}

// ---------------------------------------------------------------------------
// A tree with a handle kept, and the same tree without it
// ---------------------------------------------------------------------------

impl<T> TreeState<T> {
    /// The sons that `x` lists in `other` are those it lists here, in the same order,
    /// with some left out.
    spec fn lists_more(self, other: Self, x: usize) -> bool {
        other.node(x).sons == self.node(x).sons.filter(
            |s: usize| other.node(x).sons.contains(s),
        )
    }

    /// This tree, with one handle to `n` more, keeps up with `other`: they hold the
    /// same, what is linked there is linked here, and its flag is the same.
    spec fn keeps_up(self, other: Self, n: usize) -> bool {
        &&& self.holds_alike(other)
        &&& self.has(n)
        &&& forall|x: usize|
            self.has(x) ==> (#[trigger] self.node(x)).handles == other.node(x).handles + if x == n {
                1int
            } else {
                0int
            }
        &&& forall|x: usize| self.has(x) ==> #[trigger] self.lists_more(other, x)
        &&& forall|x: usize|
            self.has(x) && #[trigger] other.linked(x) ==> self.node(x).subtree_dirty
                == other.node(x).subtree_dirty
    }

    /// A son that only this tree lists has nothing to deliver.
    proof fn lemma_extra_is_idle(self, other: Self, n: usize, x: usize, i: int)
        requires
            self.shaped(),
            other.shaped(),
            self.keeps_up(other, n),
            self.has(x),
            0 <= i < self.node(x).sons.len(),
            !other.node(x).sons.contains(self.node(x).sons[i]),
        ensures
            !self.pending(self.node(x).sons[i]),
    {
        let s = self.node(x).sons[i];
        self.lemma_son(x, i);
        assert(other.node(s).ancestors == self.node(s).ancestors);
        assert(!other.linked(s));
        assert(other.spent(s));
        other.lemma_stirred_by_sons(s);
        self.lemma_alike_stirred(other, s);
    }

    /// Both trees fold to the same.
    proof fn lemma_keeps_up_folded(
        self,
        other: Self,
        g: spec_fn(T, T) -> T,
        n: usize,
        x: usize,
        k: nat,
    )
        requires
            self.shaped(),
            other.shaped(),
            self.keeps_up(other, n),
            self.has(x),
            k <= self.node(x).sons.len(),
        ensures
            ({
                let listed = self.node(x).sons.take(k as int).filter(
                    |s: usize| other.node(x).sons.contains(s),
                );
                &&& listed.len() <= other.node(x).sons.len()
                &&& listed == other.node(x).sons.take(listed.len() as int)
                &&& self.folded_upto(g, x, k) == other.folded_upto(g, x, listed.len())
            }),
        decreases self.nodes.len() - x, k,
    {
        reveal(Seq::filter);
        let sons = self.node(x).sons;
        let theirs = other.node(x).sons;
        let keep = |s: usize| theirs.contains(s);
        assert(self.lists_more(other, x));
        assert(other.node(x).data == self.node(x).data);
        let listed = sons.take(k as int).filter(keep);
        assert(sons.take(k as int) + sons.skip(k as int) =~= sons);
        Seq::filter_distributes_over_add(sons.take(k as int), sons.skip(k as int), keep);
        assert(theirs == listed + sons.skip(k as int).filter(keep));
        assert(listed =~= theirs.take(listed.len() as int));
        if k > 0 {
            let s = sons[k - 1];
            let before = sons.take(k - 1);
            assert(sons.take(k as int).drop_last() =~= before);
            assert(sons.take(k as int).last() == s);
            self.lemma_keeps_up_folded(other, g, n, x, (k - 1) as nat);
            self.lemma_son(x, k - 1);
            if keep(s) {
                assert(listed == before.filter(keep).push(s));
                assert(theirs[listed.len() - 1] == s);
                self.lemma_alike_stirred(other, s);
                assert(other.node(s).dirty == self.node(s).dirty);
                let len = self.node(s).sons.len();
                self.lemma_keeps_up_folded(other, g, n, s, len);
                assert(self.lists_more(other, s));
                assert(self.node(s).sons.take(len as int) =~= self.node(s).sons);
            } else {
                self.lemma_extra_is_idle(other, n, x, k - 1);
                assert(listed == before.filter(keep));
            }
        }
    }
}

impl<T: Clone> TreeState<T> {
    /// After a read of `m` in both trees, the sons of `x` are still in step.
    proof fn lemma_read_lists_more(
        self,
        other: Self,
        n: usize,
        m: usize,
        new: Self,
        new_other: Self,
        x: usize,
    )
        requires
            self.sound(),
            other.sound(),
            self.keeps_up(other, n),
            self.held(m),
            other.held(m),
            self.collected(new, m),
            other.collected(new_other, m),
            new.holds_alike(new_other),
            self.has(x),
        ensures
            new.lists_more(new_other, x),
        decreases self.nodes.len() - x,
    {
        let sons = self.node(x).sons;
        let theirs = other.node(x).sons;
        let left = new_other.node(x).sons;
        assert(self.lists_more(other, x));
        assert(other.node(x).ancestors == self.node(x).ancestors);
        assert(self.node(x).handles >= other.node(x).handles);
        let listed = |s: usize| theirs.contains(s);
        let swept = self.within(x, m) && self.node(x).subtree_dirty;
        let swept_other = other.within(x, m) && other.node(x).subtree_dirty;
        let p = |s: usize| !(swept && new.spent(s));
        let q = |s: usize| !(swept_other && new_other.spent(s));
        if self.under(x, m) {
            assert(self.drained(new, x));
            assert(other.drained(new_other, x));
        } else if x != m {
            assert(new.node(x) == self.node(x));
            assert(new_other.node(x) == other.node(x));
        }
        assert(new.node(x).sons == sons.filter(p)) by {
            if swept {
                lemma_filter_agrees(sons, |s: usize| !new.spent(s), p);
            } else {
                lemma_filter_keeps_all(sons, p);
            }
        }
        assert(left == theirs.filter(q)) by {
            if swept_other {
                lemma_filter_agrees(theirs, |s: usize| !new_other.spent(s), q);
            } else {
                lemma_filter_keeps_all(theirs, q);
            }
        }
        lemma_filter_twice(sons, listed, q);
        let both = |s: usize| listed(s) && q(s);
        assert(left == sons.filter(both));
        assert forall|i: int| 0 <= i < sons.len() implies left.contains(#[trigger] sons[i]) == both(
            sons[i],
        ) by {
            let s = sons[i];
            if both(s) {
                sons.lemma_filter_contains(both, i);
            }
            if left.contains(s) {
                let j = left.index_of(s);
                sons.lemma_filter_pred(both, j);
            }
        }
        assert forall|i: int| 0 <= i < sons.len() && both(#[trigger] sons[i]) implies p(sons[i]) by {
            let s = sons[i];
            self.lemma_son(x, i);
            if swept && new.spent(s) {
                assert(new.node(s).handles == self.node(s).handles);
                assert(new_other.node(s).handles == other.node(s).handles);
                assert(self.node(s).handles >= other.node(s).handles);
                assert(other.node(s).dead);
                assert(new_other.node(s).dirty == new.node(s).dirty);
                self.lemma_read_lists_more(other, n, m, new, new_other, s);
                reveal(Seq::filter);
                assert(new_other.node(s).sons.len() == 0);
                assert(new_other.spent(s));
                if !other.linked(x) {
                    assert(other.spent(x));
                }
                assert(false);
            }
        }
        let rest = |s: usize| left.contains(s);
        lemma_filter_twice(sons, p, rest);
        lemma_filter_agrees(sons, both, |s: usize| p(s) && rest(s));
    }

    /// An operation on both trees leaves them in step.
    proof fn lemma_turn_keeps_up(
        self,
        other: Self,
        n: usize,
        g: spec_fn(T, T) -> T,
        op: Op<T>,
        new: Self,
        new_other: Self,
    )
        requires
            self.sound(),
            other.sound(),
            self.keeps_up(other, n),
            self.permits(op),
            other.permits(op),
            self.turns(g, op, new),
            other.turns(g, op, new_other),
            clones_as_itself(self.identity),
        ensures
            new.keeps_up(new_other, n),
    {
        self.lemma_turn_alike(other, n, g, op, new, new_other);
        self.lemma_turn_sound(g, op, new);
        other.lemma_turn_sound(g, op, new_other);
        assert forall|x: usize| new.has(x) implies #[trigger] new.lists_more(new_other, x) by {
            let theirs = new_other.node(x).sons;
            match op {
                Op::Read(m) => {
                    self.lemma_read_lists_more(other, n, m, new, new_other, x);
                },
                Op::Register(m) => {
                    if self.has(x) {
                        assert(self.lists_more(other, x));
                        if x == m {
                            reveal(Seq::filter);
                            let was = self.node(x).sons;
                            let name = self.nodes.len() as usize;
                            assert(was.push(name).drop_last() =~= was);
                            assert(theirs[theirs.len() - 1] == name);
                            assert forall|i: int| 0 <= i < was.len() implies theirs.contains(
                                #[trigger] was[i],
                            ) == other.node(x).sons.contains(was[i]) by {
                                let s = was[i];
                                self.lemma_son(x, i);
                                if other.node(x).sons.contains(s) {
                                    let j = other.node(x).sons.index_of(s);
                                    assert(theirs[j] == s);
                                }
                            }
                            lemma_filter_agrees(
                                was,
                                |s: usize| theirs.contains(s),
                                |s: usize| other.node(x).sons.contains(s),
                            );
                        }
                    } else {
                        reveal(Seq::filter);
                    }
                },
                _ => {
                    assert(self.lists_more(other, x));
                },
            }
        }
        assert forall|x: usize| new.has(x) implies (#[trigger] new.node(x)).handles
            == new_other.node(x).handles + if x == n {
            1int
        } else {
            0int
        } by {
            if self.has(x) {
                assert(self.node(x).handles >= other.node(x).handles);
                if op is Read {
                    assert(new_other.node(x).handles == other.node(x).handles);
                    assert(new.node(x).handles == self.node(x).handles);
                }
            }
        }
        assert forall|x: usize| new.has(x) && #[trigger] new_other.linked(x) implies new.node(
            x,
        ).subtree_dirty == new_other.node(x).subtree_dirty by {
            self.lemma_turn_flags(other, n, g, op, new, new_other, x);
        }
    }

    proof fn lemma_turn_flags(
        self,
        other: Self,
        n: usize,
        g: spec_fn(T, T) -> T,
        op: Op<T>,
        new: Self,
        new_other: Self,
        x: usize,
    )
        requires
            self.sound(),
            other.sound(),
            self.keeps_up(other, n),
            self.permits(op),
            other.permits(op),
            self.turns(g, op, new),
            other.turns(g, op, new_other),
            new.has(x),
            new_other.linked(x),
        ensures
            new.node(x).subtree_dirty == new_other.node(x).subtree_dirty,
    {
        if self.has(x) {
            assert(other.node(x).ancestors == self.node(x).ancestors);
            if 0 < x {
                assert(other.descends(x));
                assert(self.lists_more(other, self.father(x)));
            }
            match op {
                Op::Read(m) => {
                    if !other.linked(x) {
                        let dirty = other.node(m).dirty;
                        let mid = new_other.with(
                            m,
                            (NodeState { dirty, ..new_other.node(m) }),
                        );
                        other.lemma_cleared_either_way(new_other, m, dirty);
                        other.lemma_stays_unlinked(mid, m, x);
                        assert(new_other.node(x).ancestors == other.node(x).ancestors);
                        let f = other.father(x);
                        assert(mid.node(f).sons == new_other.node(f).sons);
                        assert(mid.node(x).ancestors == new_other.node(x).ancestors);
                    }
                    assert(self.linked(x)) by {
                        if 0 < x {
                            let f = self.father(x);
                            self.node(f).sons.lemma_filter_contains_rev(
                                |s: usize| other.node(f).sons.contains(s),
                                x,
                            );
                        }
                    }
                    if self.under(x, m) {
                        assert(self.drained(new, x));
                        assert(other.drained(new_other, x));
                    } else if x != m {
                        assert(new.node(x) == self.node(x));
                        assert(new_other.node(x) == other.node(x));
                    }
                },
                Op::Register(m) => {
                    other.lemma_grown_shaped(m, other.identity);
                    assert(other.linked(x) == new_other.linked(x));
                },
                Op::Update(m, f) => {
                    assert(other.node(m).ancestors == self.node(m).ancestors);
                    assert(other.nodes[x as int] == other.node(x));
                    assert(self.nodes[x as int] == self.node(x));
                    if 0 < x {
                        let y = other.father(x);
                        assert(other.nodes[y as int] == other.node(y));
                        assert(new_other.node(y).sons == other.node(y).sons);
                        assert(new_other.node(x).ancestors == other.node(x).ancestors);
                    }
                    assert(other.linked(x));
                },
                _ => {
                    if 0 < x {
                        let y = other.father(x);
                        assert(new_other.node(y).sons == other.node(y).sons);
                        assert(new_other.node(x).ancestors == other.node(x).ancestors);
                    }
                    assert(other.linked(x));
                },
            }
        }
    }

    /// An operation on both trees leaves trees that hold the same.
    proof fn lemma_turn_alike(
        self,
        other: Self,
        n: usize,
        g: spec_fn(T, T) -> T,
        op: Op<T>,
        new: Self,
        new_other: Self,
    )
        requires
            self.sound(),
            other.sound(),
            self.keeps_up(other, n),
            self.permits(op),
            other.permits(op),
            self.turns(g, op, new),
            other.turns(g, op, new_other),
            clones_as_itself(self.identity),
        ensures
            new.holds_alike(new_other),
    {
        match op {
            Op::Read(m) => {
                let len = self.node(m).sons.len();
                self.lemma_keeps_up_folded(other, g, n, m, len);
                assert(self.node(m).sons.take(len as int) =~= self.node(m).sons);
                assert(self.lists_more(other, m));
                self.lemma_alike_stirred(other, m);
                assert forall|x: usize| new.has(x) implies {
                    &&& (#[trigger] new_other.node(x)).data == new.node(x).data
                    &&& new_other.node(x).dirty == new.node(x).dirty
                    &&& new_other.node(x).ancestors == new.node(x).ancestors
                } by {
                    assert(other.node(x).ancestors == self.node(x).ancestors);
                    assert(new.node(x).ancestors == self.node(x).ancestors);
                    assert(new_other.node(x).ancestors == other.node(x).ancestors);
                    if self.under(x, m) {
                        self.law_folding_resets_to_the_identity(new, m, x);
                        other.law_folding_resets_to_the_identity(new_other, m, x);
                    } else if x != m {
                        assert(new.node(x) == self.node(x));
                        assert(!other.within(x, m));
                        assert(new_other.node(x) == other.node(x));
                    }
                }
            },
            Op::Update(m, f) => {
                assert(other.node(m).data == self.node(m).data);
                assert forall|x: usize| new.has(x) implies {
                    &&& (#[trigger] new_other.node(x)).data == new.node(x).data
                    &&& new_other.node(x).dirty == new.node(x).dirty
                    &&& new_other.node(x).ancestors == new.node(x).ancestors
                } by {
                    assert(other.node(x).ancestors == self.node(x).ancestors);
                    assert(other.nodes[x as int] == other.node(x));
                    assert(self.nodes[x as int] == self.node(x));
                }
            },
            Op::Register(m) => {
                assert(other.node(m).ancestors == self.node(m).ancestors);
                assert forall|x: usize| new.has(x) implies {
                    &&& (#[trigger] new_other.node(x)).data == new.node(x).data
                    &&& new_other.node(x).dirty == new.node(x).dirty
                    &&& new_other.node(x).ancestors == new.node(x).ancestors
                } by {
                    if self.has(x) {
                        assert(other.node(x).ancestors == self.node(x).ancestors);
                    }
                }
            },
            _ => {
                assert forall|x: usize| new.has(x) implies {
                    &&& (#[trigger] new_other.node(x)).data == new.node(x).data
                    &&& new_other.node(x).dirty == new.node(x).dirty
                    &&& new_other.node(x).ancestors == new.node(x).ancestors
                } by {
                    assert(other.node(x).ancestors == self.node(x).ancestors);
                }
            },
        }
    }

    /// The same operations keep both trees in step.
    proof fn lemma_lived_keeps_up(
        self,
        other: Self,
        n: usize,
        g: spec_fn(T, T) -> T,
        ops: Seq<Op<T>>,
        trees: Seq<Self>,
        others: Seq<Self>,
        k: nat,
    )
        requires
            self.sound(),
            other.sound(),
            self.keeps_up(other, n),
            self.lived(g, ops, trees),
            other.lived(g, ops, others),
            k <= ops.len(),
            clones_as_itself(self.identity),
        ensures
            trees[k as int].sound(),
            others[k as int].sound(),
            trees[k as int].identity == self.identity,
            trees[k as int].keeps_up(others[k as int], n),
        decreases k,
    {
        if k > 0 {
            let j = k - 1;
            self.lemma_lived_keeps_up(other, n, g, ops, trees, others, j as nat);
            assert(trees[j].permits(ops[j]) && others[j].permits(ops[j]));
            trees[j].lemma_turn_sound(g, ops[j], trees[j + 1]);
            others[j].lemma_turn_sound(g, ops[j], others[j + 1]);
            trees[j].lemma_turn_keeps_up(
                others[j],
                n,
                g,
                ops[j],
                trees[j + 1],
                others[j + 1],
            );
        }
    }

    /// A handle that was given up is never missed, whatever the fold. Take any
    /// operations, done once with the handle kept and once after it was given up: at
    /// every moment both trees hold the same, so every later read, of the root or of
    /// any other node, returns the same.
    pub proof fn law_a_dropped_handle_is_never_missed(
        self,
        g: spec_fn(T, T) -> T,
        n: usize,
        ops: Seq<Op<T>>,
        kept: Seq<Self>,
        gone: Seq<Self>,
        k: int,
    )
        requires
            self.sound(),
            self.held(n),
            self.lived(g, ops, kept),
            self.released(n).lived(g, ops, gone),
            0 <= k <= ops.len(),
            clones_as_itself(self.identity),
        ensures
            kept[k].holds_alike(gone[k]),
            forall|m: usize|
                kept[k].has(m) ==> #[trigger] gone[k].folded(g, m) == kept[k].folded(g, m),
            k < ops.len() ==> (ops[k] matches Op::Read(m) ==> gone[k + 1].node(m).data
                == kept[k + 1].node(m).data),
    {
        let other = self.released(n);
        self.lemma_turn_sound(g, Op::Release(n), other);
        assert(self.keeps_up(other, n)) by {
            assert forall|x: usize| self.has(x) implies #[trigger] self.lists_more(other, x) by {
                lemma_filter_keeps_all(
                    self.node(x).sons,
                    |s: usize| other.node(x).sons.contains(s),
                );
            }
        }
        self.lemma_lived_keeps_up(other, n, g, ops, kept, gone, k as nat);
        assert forall|m: usize| kept[k].has(m) implies #[trigger] gone[k].folded(g, m)
            == kept[k].folded(g, m) by {
            let len = kept[k].node(m).sons.len();
            kept[k].lemma_keeps_up_folded(gone[k], g, n, m, len);
            assert(kept[k].node(m).sons.take(len as int) =~= kept[k].node(m).sons);
            assert(kept[k].lists_more(gone[k], m));
        }
        if k < ops.len() {
            assert(kept[k].permits(ops[k]) && gone[k].permits(ops[k]));
        }
    }
}

} // verus!
