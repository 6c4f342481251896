//! Folds that are a commutative monoid on some values only.
//!
//! A maximum with zero is one on the numbers that are not negative. As long as
//! nothing else is written, everything that holds of a fold on all values holds of
//! it: it does the same as the fold that `widened` makes of it.
use vstd::prelude::*;

use crate::interleave::CrewState;
use crate::interleave::TaskState;
use crate::monoid::clones_as_itself;
use crate::monoid::closed_under;
use crate::monoid::commutative_monoid_on;
use crate::monoid::law_a_monoid_may_be_widened;
use crate::monoid::lemma_closed;
use crate::monoid::lemma_monoid_is_closed;
use crate::monoid::sum;
use crate::monoid::widened;
use crate::runs::added;
use crate::runs::Event;
use crate::state::TreeState;

verus! {

/// All values of a sequence are in `d`.
pub open spec fn all_in<T>(d: spec_fn(T) -> bool, values: Seq<T>) -> bool {
    forall|i: int| 0 <= i < values.len() ==> d(#[trigger] values[i])
}

impl<T> TreeState<T> {
    /// The tree holds only values in `d`.
    pub open spec fn confined(self, d: spec_fn(T) -> bool) -> bool {
        forall|x: usize| self.has(x) ==> d((#[trigger] self.node(x)).data)
    }
}

impl<T> CrewState<T> {
    /// The tree, and the hands of the workers, hold only values in `d`.
    pub open spec fn confined(self, d: spec_fn(T) -> bool) -> bool {
        self.tree.confined(d) && all_in(d, self.hands())
    }
}

proof fn lemma_sum_closed<T>(
    d: spec_fn(T) -> bool,
    g: spec_fn(T, T) -> T,
    identity: T,
    values: Seq<T>,
)
    requires
        commutative_monoid_on(d, g, identity),
        all_in(d, values),
    ensures
        d(sum(g, identity, values)),
        sum(widened(d, g), identity, values) == sum(g, identity, values),
    decreases values.len(),
{
    lemma_monoid_is_closed(d, g, identity);
    if values.len() > 0 {
        let init = values.drop_last();
        assert forall|i: int| 0 <= i < init.len() implies d(#[trigger] init[i]) by {
            assert(d(values[i]));
        }
        lemma_sum_closed(d, g, identity, init);
        assert(d(values[values.len() - 1]));
        lemma_closed(d, g, identity, sum(g, identity, init), values.last());
    }
}

impl<T: Clone> TreeState<T> {
    proof fn lemma_folded_closed(
        self,
        d: spec_fn(T) -> bool,
        g: spec_fn(T, T) -> T,
        n: usize,
        k: nat,
    )
        requires
            commutative_monoid_on(d, g, self.identity),
            self.confined(d),
            self.has(n),
        ensures
            d(self.folded_upto(g, n, k)),
            self.folded_upto(widened(d, g), n, k) == self.folded_upto(g, n, k),
        decreases self.nodes.len() - n, k,
    {
        assert(d(self.node(n).data));
        lemma_monoid_is_closed(d, g, self.identity);
        if k > 0 {
            let s = self.node(n).sons[k - 1];
            self.lemma_folded_closed(d, g, n, (k - 1) as nat);
            if self.pending(s) && n < s && self.has(s) {
                self.lemma_folded_closed(d, g, s, self.node(s).sons.len());
                lemma_closed(
                    d,
                    g,
                    self.identity,
                    self.folded_upto(g, n, (k - 1) as nat),
                    self.folded(g, s),
                );
            }
        }
    }

    /// A read of values in `d` returns one of them, and the widened fold reads the
    /// same.
    pub proof fn law_a_read_stays_in_a_closed_set(
        self,
        d: spec_fn(T) -> bool,
        g: spec_fn(T, T) -> T,
        n: usize,
    )
        requires
            commutative_monoid_on(d, g, self.identity),
            self.confined(d),
            self.has(n),
        ensures
            d(self.folded(g, n)),
            self.folded(widened(d, g), n) == self.folded(g, n),
    {
        self.lemma_folded_closed(d, g, n, self.node(n).sons.len());
    }

    /// A write in `d` reaches the root.
    pub proof fn law_a_write_in_a_closed_set_reaches_the_root(
        self,
        d: spec_fn(T) -> bool,
        g: spec_fn(T, T) -> T,
        n: usize,
        x: T,
    )
        requires
            self.sound(),
            self.held(n),
            commutative_monoid_on(d, g, self.identity),
            self.confined(d),
            d(x),
            clones_as_itself(self.identity),
        ensures
            self.written(n, g(self.node(n).data, x)).confined(d),
            self.written(n, g(self.node(n).data, x)).folded(g, 0) == g(self.folded(g, 0), x),
    {
        let w = widened(d, g);
        let data = g(self.node(n).data, x);
        let new = self.written(n, data);
        law_a_monoid_may_be_widened(d, g, self.identity);
        lemma_monoid_is_closed(d, g, self.identity);
        lemma_closed(d, g, self.identity, self.node(n).data, x);
        assert forall|y: usize| new.has(y) implies d((#[trigger] new.node(y)).data) by {
            assert(d(self.node(y).data));
            assert(self.nodes[y as int] == self.node(y));
        }
        self.law_a_write_reaches_the_root(w, n, x);
        self.law_a_read_stays_in_a_closed_set(d, g, 0);
        new.law_a_read_stays_in_a_closed_set(d, g, 0);
        lemma_closed(d, g, self.identity, self.folded(g, 0), x);
    }

    /// A read of any node takes nothing from the root, of values in `d`.
    pub proof fn law_a_read_anywhere_in_a_closed_set_loses_nothing(
        self,
        d: spec_fn(T) -> bool,
        g: spec_fn(T, T) -> T,
        new: Self,
        n: usize,
    )
        requires
            self.sound(),
            self.held(n),
            self.read(g, new, n),
            commutative_monoid_on(d, g, self.identity),
            self.confined(d),
            clones_as_itself(self.identity),
        ensures
            new.confined(d),
            new.folded(g, 0) == self.folded(g, 0),
    {
        let w = widened(d, g);
        law_a_monoid_may_be_widened(d, g, self.identity);
        lemma_monoid_is_closed(d, g, self.identity);
        self.law_a_read_stays_in_a_closed_set(d, g, n);
        self.law_a_read_stays_in_a_closed_set(d, g, 0);
        assert forall|y: usize| new.has(y) implies d((#[trigger] new.node(y)).data) by {
            assert(d(self.node(y).data));
            if self.under(y, n) {
                self.law_folding_resets_to_the_identity(new, n, y);
            } else if y != n {
                assert(new.node(y) == self.node(y));
            }
        }
        new.law_a_read_stays_in_a_closed_set(d, g, 0);
        self.law_a_read_anywhere_loses_nothing(w, new, n);
    }
}

// ---------------------------------------------------------------------------
// Runs
// ---------------------------------------------------------------------------

impl<T: Clone> CrewState<T> {
    proof fn lemma_total_closed(self, d: spec_fn(T) -> bool, g: spec_fn(T, T) -> T, n: usize)
        requires
            commutative_monoid_on(d, g, self.tree.identity),
            self.tree.shaped(),
            self.tree.has(n),
            self.confined(d),
        ensures
            d(self.total(g)),
            self.total(widened(d, g)) == self.total(g),
            d(self.total_without(g, n)),
            self.total_without(widened(d, g), n) == self.total_without(g, n),
    {
        let e = self.tree.identity;
        let v = self.tree.holdings();
        let rest = v.update(n as int, e);
        lemma_monoid_is_closed(d, g, e);
        assert forall|x: int| 0 <= x < v.len() implies d(#[trigger] v[x]) by {
            assert(d(self.tree.node(x as usize).data));
        }
        lemma_sum_closed(d, g, e, v);
        lemma_sum_closed(d, g, e, rest);
        lemma_sum_closed(d, g, e, self.hands());
        lemma_closed(d, g, e, sum(g, e, v), sum(g, e, self.hands()));
        lemma_closed(d, g, e, sum(g, e, rest), sum(g, e, self.hands()));
    }

    /// A step keeps to the values in `d`, and the widened fold takes the same step.
    proof fn lemma_step_closed(self, d: spec_fn(T) -> bool, g: spec_fn(T, T) -> T, i: int)
        requires
            self.sound(),
            self.employs(i),
            closed_under(d, g, self.tree.identity),
            self.confined(d),
        ensures
            self.stepped(g, self.tree.identity, i).confined(d),
            self.stepped(widened(d, g), self.tree.identity, i) == self.stepped(
                g,
                self.tree.identity,
                i,
            ),
    {
        let e = self.tree.identity;
        let tree = self.tree;
        let new = self.stepped(g, e, i);
        assert(d(e)) by {
            reveal(closed_under);
        }
        assert(tree.admits(self.tasks[i]));
        assert(d(self.hands()[i]));
        match self.tasks[i] {
            TaskState::Read(walk) => {
                if walk.frames.len() > 0 {
                    tree.lemma_place(walk, walk.frames.len() - 1);
                }
                if walk.stage is Enter || walk.stage is Take {
                    tree.lemma_place(walk, walk.frames.len() as int);
                }
                if walk.stage is Fold {
                    let p = walk.place(walk.frames.len() - 1);
                    assert(d(tree.node(p).data));
                    lemma_closed(d, g, e, tree.node(p).data, walk.stage->Fold_0);
                } else if walk.stage is Take {
                    assert(d(tree.node(walk.top().current()).data));
                }
            },
            TaskState::Mark(n, climb) => {
                tree.lemma_ancestor(n, climb.next as int);
            },
            _ => {},
        }
        assert(new.tree.nodes.len() == tree.nodes.len());
        assert(new.tree.identity == e);
        assert forall|x: usize| new.tree.has(x) implies d((#[trigger] new.tree.node(x)).data) by {
            assert(d(tree.node(x).data));
        }
        assert forall|j: int| 0 <= j < new.hands().len() implies d(#[trigger] new.hands()[j]) by {
            assert(d(self.hands()[j]));
        }
    }

    /// A run that writes only values in `d` never leads out of `d`, whoever reads
    /// meanwhile: at every moment every node, and every hand, holds a value in `d`,
    /// and so does every read that is about to return. Under a maximum, no read ever
    /// returns more than the largest value written.
    pub proof fn law_a_run_stays_in_a_closed_set(
        self,
        d: spec_fn(T) -> bool,
        g: spec_fn(T, T) -> T,
        run: Seq<Event<T>>,
    )
        requires
            self.sound(),
            self.allows_run(g, run),
            closed_under(d, g, self.tree.identity),
            self.confined(d),
            all_in(d, added(run)),
        ensures
            self.ran(g, run).confined(d),
            forall|i: int|
                self.ran(g, run).employs(i) && #[trigger] self.ran(g, run).has_read(i) ==> d(
                    self.ran(g, run).tree.node(
                        self.ran(g, run).tasks[i]->Read_0.origin,
                    ).data,
                ),
            self.ran(widened(d, g), run) == self.ran(g, run),
            self.allows_run(widened(d, g), run),
        decreases run.len(),
    {
        let e = self.tree.identity;
        let new = self.ran(g, run);
        self.law_every_run_keeps_the_crew_sound(g, run);
        if run.len() > 0 {
            let past = run.drop_last();
            let mid = self.ran(g, past);
            assert forall|j: int| 0 <= j < added(past).len() implies d(#[trigger] added(past)[j]) by {
                assert(added(run)[j] == added(past)[j]);
            }
            self.law_a_run_stays_in_a_closed_set(d, g, past);
            self.law_every_run_keeps_the_crew_sound(g, past);
            assert(d(e)) by {
                reveal(closed_under);
            }
            match run.last() {
                Event::Step(i) => {
                    mid.lemma_step_closed(d, g, i);
                },
                Event::Add(i, n, x) => {
                    assert(added(run)[added(past).len() as int] == x);
                    assert(d(mid.tree.node(n).data));
                    lemma_closed(d, g, e, mid.tree.node(n).data, x);
                    mid.lemma_write_closed(d, i, n, g(mid.tree.node(n).data, x));
                },
                Event::Overwrite(i, n, x) => {
                    assert(added(run)[added(past).len() as int] == x);
                    mid.lemma_write_closed(d, i, n, x);
                },
                Event::Register(i, n) => {
                    assert forall|x: usize| new.tree.has(x) implies d(
                        (#[trigger] new.tree.node(x)).data,
                    ) by {
                        if mid.tree.has(x) {
                            assert(d(mid.tree.node(x).data));
                        }
                    }
                    assert(new.hands() =~= mid.hands());
                },
                _ => {
                    assert forall|x: usize| new.tree.has(x) implies d(
                        (#[trigger] new.tree.node(x)).data,
                    ) by {
                        assert(d(mid.tree.node(x).data));
                    }
                    assert forall|j: int| 0 <= j < new.hands().len() implies d(
                        #[trigger] new.hands()[j],
                    ) by {
                        assert(d(mid.hands()[j]));
                    }
                },
            }
        }
        assert forall|i: int| new.employs(i) && #[trigger] new.has_read(i) implies d(
            new.tree.node(new.tasks[i]->Read_0.origin).data,
        ) by {
            assert(new.tree.admits(new.tasks[i]));
        }
    }

    /// What a crew adds up to stays in `d`, and is the same for the widened fold.
    proof fn lemma_tally_closed(
        self,
        d: spec_fn(T) -> bool,
        g: spec_fn(T, T) -> T,
        run: Seq<Event<T>>,
    )
        requires
            self.sound(),
            self.allows_run(g, run),
            commutative_monoid_on(d, g, self.tree.identity),
            self.confined(d),
            all_in(d, added(run)),
        ensures
            d(self.tally(g, run)),
            self.tally(widened(d, g), run) == self.tally(g, run),
            self.discards_nothing(widened(d, g), run) == self.discards_nothing(g, run),
        decreases run.len(),
    {
        let e = self.tree.identity;
        lemma_monoid_is_closed(d, g, e);
        if run.len() == 0 {
            self.lemma_total_closed(d, g, 0);
        } else {
            let past = run.drop_last();
            let mid = self.ran(g, past);
            assert forall|j: int| 0 <= j < added(past).len() implies d(#[trigger] added(past)[j]) by {
                assert(added(run)[j] == added(past)[j]);
            }
            self.lemma_tally_closed(d, g, past);
            self.law_a_run_stays_in_a_closed_set(d, g, past);
            self.law_every_run_keeps_the_crew_sound(g, past);
            match run.last() {
                Event::Add(i, n, x) => {
                    assert(added(run)[added(past).len() as int] == x);
                    lemma_closed(d, g, e, self.tally(g, past), x);
                },
                Event::Overwrite(i, n, x) => {
                    assert(added(run)[added(past).len() as int] == x);
                    assert(d(mid.tree.node(n).data));
                    mid.lemma_total_closed(d, g, n);
                    lemma_closed(d, g, e, mid.tree.node(n).data, x);
                    lemma_closed(d, g, e, mid.total_without(g, n), x);
                },
                _ => {},
            }
        }
    }

    proof fn lemma_write_closed(self, d: spec_fn(T) -> bool, i: int, n: usize, data: T)
        requires
            self.confined(d),
            self.employs(i),
            self.tasks[i] is Idle,
            self.tree.held(n),
            d(data),
        ensures
            self.began_write(i, n, data).confined(d),
    {
        let new = self.began_write(i, n, data);
        assert forall|x: usize| new.tree.has(x) implies d((#[trigger] new.tree.node(x)).data) by {
            assert(d(self.tree.node(x).data));
        }
        assert(new.hands() =~= self.hands());
    }

    /// The fold need be a commutative monoid only on what is written. After any run
    /// that writes values in `d` alone, when all operations are over, a read of the
    /// root returns what the crew is to add up to; where no overwrite threw anything
    /// away, that is what there was and everything written since.
    pub proof fn law_a_quiet_read_of_a_closed_set_is_exact(
        self,
        d: spec_fn(T) -> bool,
        g: spec_fn(T, T) -> T,
        run: Seq<Event<T>>,
    )
        requires
            self.sound(),
            self.allows_run(g, run),
            self.ran(g, run).quiet(),
            commutative_monoid_on(d, g, self.tree.identity),
            self.confined(d),
            all_in(d, added(run)),
            clones_as_itself(self.tree.identity),
        ensures
            self.ran(g, run).tree.sound(),
            self.ran(g, run).confined(d),
            self.ran(g, run).tree.folded(g, 0) == self.tally(g, run),
            self.discards_nothing(g, run) ==> self.ran(g, run).tree.folded(g, 0) == g(
                self.total(g),
                sum(g, self.tree.identity, added(run)),
            ),
            self.quiet() ==> self.total(g) == self.tree.folded(g, 0),
    {
        let e = self.tree.identity;
        law_a_monoid_may_be_widened(d, g, e);
        lemma_monoid_is_closed(d, g, e);
        self.law_a_run_stays_in_a_closed_set(d, g, run);
        self.lemma_tally_closed(d, g, run);
        self.law_every_run_keeps_the_crew_sound(g, run);
        self.law_after_any_run_a_quiet_read_is_exact(widened(d, g), run);
        self.ran(g, run).tree.law_a_read_stays_in_a_closed_set(d, g, 0);
        self.tree.law_a_read_stays_in_a_closed_set(d, g, 0);
        self.lemma_total_closed(d, g, 0);
        lemma_sum_closed(d, g, e, added(run));
        lemma_closed(d, g, e, self.total(g), sum(g, e, added(run)));
    }
}

} // verus!
