//! Whole runs of a crew: any operations, their steps in any order.
use vstd::prelude::*;

use crate::interleave::CrewState;
use crate::monoid::clones_as_itself;
use crate::monoid::commutative_monoid;
use crate::monoid::lemma_assoc;
use crate::monoid::lemma_identity;
use crate::monoid::sum;

verus! {

/// One thing that happens in a run. The first number names the worker.
pub enum Event<T> {
    /// A worker takes a step.
    Step(int),
    /// A worker begins a write that folds a value into the data of a node.
    Add(int, usize, T),
    /// A worker begins a write that overwrites the data of a node.
    Overwrite(int, usize, T),
    /// A worker begins a read of a node.
    Read(int, usize),
    /// A worker begins to give up a handle to a node.
    Release(int, usize),
    /// A worker clones a handle to a node.
    Share(int, usize),
    /// A worker registers a new son of a node.
    Register(int, usize),
}

impl<T: Clone> CrewState<T> {
    /// The event may happen now.
    pub open spec fn allows(self, event: Event<T>) -> bool {
        match event {
            Event::Step(i) => self.employs(i),
            Event::Add(i, n, x) => self.employs(i) && self.tasks[i] is Idle && self.tree.held(n),
            Event::Overwrite(i, n, x) => self.employs(i) && self.tasks[i] is Idle
                && self.tree.held(n),
            Event::Read(i, n) => self.employs(i) && self.tasks[i] is Idle && self.tree.held(n),
            Event::Release(i, n) => self.employs(i) && self.tasks[i] is Idle && self.may_release(n),
            Event::Share(i, n) => self.employs(i) && self.tasks[i] is Idle && self.tree.held(n)
                && self.tree.node(n).handles < usize::MAX,
            Event::Register(i, n) => self.employs(i) && self.tasks[i] is Idle && self.tree.held(n)
                && self.tree.nodes.len() < usize::MAX,
        }
    }

    /// The crew after the event.
    pub open spec fn after(self, g: spec_fn(T, T) -> T, event: Event<T>) -> Self {
        match event {
            Event::Step(i) => self.stepped(g, self.tree.identity, i),
            Event::Add(i, n, x) => self.began_write(i, n, g(self.tree.node(n).data, x)),
            Event::Overwrite(i, n, x) => self.began_write(i, n, x),
            Event::Read(i, n) => self.began_read(i, n),
            Event::Release(i, n) => self.began_release(i, n),
            Event::Share(i, n) => self.shared(n),
            Event::Register(i, n) => self.registered(n, self.tree.identity),
        }
    }

    /// The crew after a run.
    pub open spec fn ran(self, g: spec_fn(T, T) -> T, run: Seq<Event<T>>) -> Self
        decreases run.len(),
    {
        if run.len() == 0 {
            self
        } else {
            self.ran(g, run.drop_last()).after(g, run.last())
        }
    }

    /// Every event of a run may happen when it does.
    pub open spec fn allows_run(self, g: spec_fn(T, T) -> T, run: Seq<Event<T>>) -> bool
        decreases run.len(),
    {
        run.len() == 0 || self.allows_run(g, run.drop_last()) && self.ran(
            g,
            run.drop_last(),
        ).allows(run.last())
    }
}

/// Everything that is written in a run.
pub open spec fn added<T>(run: Seq<Event<T>>) -> Seq<T>
    decreases run.len(),
{
    if run.len() == 0 {
        Seq::empty()
    } else {
        match run.last() {
            Event::Add(i, n, x) => added(run.drop_last()).push(x),
            Event::Overwrite(i, n, x) => added(run.drop_last()).push(x),
            _ => added(run.drop_last()),
        }
    }
}

impl<T: Clone> CrewState<T> {
    /// What a crew is to add up to after a run: what it did before, and each value
    /// that was folded in, and for each overwrite the value that was written in
    /// place of what the node held at that moment.
    pub open spec fn tally(self, g: spec_fn(T, T) -> T, run: Seq<Event<T>>) -> T
        decreases run.len(),
    {
        if run.len() == 0 {
            self.total(g)
        } else {
            let past = run.drop_last();
            match run.last() {
                Event::Add(i, n, x) => g(self.tally(g, past), x),
                Event::Overwrite(i, n, x) => g(self.ran(g, past).total_without(g, n), x),
                _ => self.tally(g, past),
            }
        }
    }

    /// No overwrite in a run throws anything away: what it writes takes in what the
    /// node held at that moment. So it is with every overwrite of a node that owes
    /// nothing, and with growing values under a maximum.
    pub open spec fn discards_nothing(self, g: spec_fn(T, T) -> T, run: Seq<Event<T>>) -> bool
        decreases run.len(),
    {
        run.len() == 0 || {
            let past = run.drop_last();
            &&& self.discards_nothing(g, past)
            &&& run.last() matches Event::Overwrite(i, n, x) ==> g(
                self.ran(g, past).tree.node(n).data,
                x,
            ) == x
        }
    }
}

impl<T: Clone> CrewState<T> {
    /// Any run keeps a crew sound, whatever the fold.
    pub proof fn law_every_run_keeps_the_crew_sound(
        self,
        g: spec_fn(T, T) -> T,
        run: Seq<Event<T>>,
    )
        requires
            self.sound(),
            self.allows_run(g, run),
        ensures
            self.ran(g, run).sound(),
            self.ran(g, run).tree.identity == self.tree.identity,
        decreases run.len(),
    {
        let e = self.tree.identity;
        if run.len() > 0 {
            let past = run.drop_last();
            self.law_every_run_keeps_the_crew_sound(g, past);
            let mid = self.ran(g, past);
            match run.last() {
                Event::Step(i) => {
                    mid.law_every_step_keeps_the_crew_sound(g, e, i);
                },
                Event::Add(i, n, x) => {
                    mid.law_a_write_may_begin(i, n, g(mid.tree.node(n).data, x));
                },
                Event::Overwrite(i, n, x) => {
                    mid.law_a_write_may_begin(i, n, x);
                },
                Event::Read(i, n) => {
                    mid.law_a_read_may_begin(i, n);
                },
                Event::Release(i, n) => {
                    mid.law_a_handle_may_go(i, n);
                },
                Event::Share(i, n) => {
                    mid.law_a_handle_may_be_shared(i, n);
                },
                Event::Register(i, n) => {
                    mid.law_a_son_may_be_registered(i, n, e);
                },
            }
        }
    }

    /// However the steps of any number of writers, readers and handles going away
    /// are interleaved: the crew stays sound, and at every moment it adds up to what
    /// it should. No write is lost, none is counted twice, and an overwrite takes
    /// away what its own node still owed and nothing else.
    pub proof fn law_every_run_adds_up(self, g: spec_fn(T, T) -> T, run: Seq<Event<T>>)
        requires
            self.sound(),
            self.allows_run(g, run),
            commutative_monoid(g, self.tree.identity),
        ensures
            self.ran(g, run).sound(),
            self.ran(g, run).tree.identity == self.tree.identity,
            self.ran(g, run).total(g) == self.tally(g, run),
        decreases run.len(),
    {
        self.law_every_run_keeps_the_crew_sound(g, run);
        if run.len() > 0 {
            let past = run.drop_last();
            self.law_every_run_adds_up(g, past);
            let mid = self.ran(g, past);
            match run.last() {
                Event::Step(i) => {
                    mid.law_steps_conserve_the_total(g, i);
                },
                Event::Add(i, n, x) => {
                    mid.law_a_write_adds_to_the_total(g, i, n, x);
                },
                Event::Overwrite(i, n, x) => {
                    mid.law_an_overwrite_replaces_what_was_owed(g, i, n, x);
                },
                Event::Read(i, n) => {
                    mid.law_only_writes_change_the_total(g, i, n);
                },
                Event::Release(i, n) => {
                    mid.law_only_writes_change_the_total(g, i, n);
                },
                Event::Share(i, n) => {
                    mid.law_only_writes_change_the_total(g, i, n);
                },
                Event::Register(i, n) => {
                    mid.law_only_writes_change_the_total(g, i, n);
                },
            }
        }
    }

    /// Where no overwrite throws anything away, a crew adds up to what there was and
    /// everything written since, each write counted once, however the steps are
    /// interleaved.
    pub proof fn law_no_run_loses_or_repeats_a_write(
        self,
        g: spec_fn(T, T) -> T,
        run: Seq<Event<T>>,
    )
        requires
            self.sound(),
            self.allows_run(g, run),
            self.discards_nothing(g, run),
            commutative_monoid(g, self.tree.identity),
        ensures
            self.ran(g, run).sound(),
            self.ran(g, run).total(g) == g(
                self.total(g),
                sum(g, self.tree.identity, added(run)),
            ),
        decreases run.len(),
    {
        let e = self.tree.identity;
        self.law_every_run_adds_up(g, run);
        if run.len() == 0 {
            lemma_identity(g, e, self.total(g));
        } else {
            let past = run.drop_last();
            self.law_no_run_loses_or_repeats_a_write(g, past);
            self.law_every_run_adds_up(g, past);
            let mid = self.ran(g, past);
            match run.last() {
                Event::Add(i, n, x) => {
                    assert(added(run).drop_last() =~= added(past));
                    lemma_assoc(g, e, self.total(g), sum(g, e, added(past)), x);
                },
                Event::Overwrite(i, n, x) => {
                    mid.law_an_overwrite_that_takes_in_adds_to_the_total(g, i, n, x);
                    assert(added(run).drop_last() =~= added(past));
                    lemma_assoc(g, e, self.total(g), sum(g, e, added(past)), x);
                },
                _ => {},
            }
        }
    }

    /// Once the tree is quiet a read is exact: after any run, when all operations
    /// are over, a read of the root returns what the crew is to add up to. Where no
    /// overwrite threw anything away, that is what there was and everything written
    /// since.
    pub proof fn law_after_any_run_a_quiet_read_is_exact(
        self,
        g: spec_fn(T, T) -> T,
        run: Seq<Event<T>>,
    )
        requires
            self.sound(),
            self.allows_run(g, run),
            self.ran(g, run).quiet(),
            commutative_monoid(g, self.tree.identity),
            clones_as_itself(self.tree.identity),
        ensures
            self.ran(g, run).tree.sound(),
            self.ran(g, run).tree.folded(g, 0) == self.tally(g, run),
            self.discards_nothing(g, run) ==> self.ran(g, run).tree.folded(g, 0) == g(
                self.total(g),
                sum(g, self.tree.identity, added(run)),
            ),
            self.quiet() ==> self.total(g) == self.tree.folded(g, 0),
    {
        self.law_every_run_adds_up(g, run);
        let end = self.ran(g, run);
        end.law_quiet_tree_is_sound();
        end.lemma_quiet_total(g);
        end.tree.law_a_quiet_read_is_exact(g);
        if self.discards_nothing(g, run) {
            self.law_no_run_loses_or_repeats_a_write(g, run);
        }
        if self.quiet() {
            self.law_quiet_tree_is_sound();
            self.lemma_quiet_total(g);
            self.tree.law_a_quiet_read_is_exact(g);
        }
    }

    /// Giving up a handle takes nothing from any later read of the root. Take any
    /// crew, one run of it in which the handle is kept and one in which it is given
    /// up first: if the same is written in both, then, once all operations are over,
    /// both roots read the same.
    pub proof fn law_a_dropped_handle_changes_no_later_read(
        self,
        g: spec_fn(T, T) -> T,
        i: int,
        n: usize,
        kept: Seq<Event<T>>,
        gone: Seq<Event<T>>,
    )
        requires
            self.sound(),
            self.employs(i),
            self.tasks[i] is Idle,
            self.may_release(n),
            self.allows_run(g, kept),
            self.ran(g, kept).quiet(),
            self.discards_nothing(g, kept),
            self.began_release(i, n).allows_run(g, gone),
            self.began_release(i, n).ran(g, gone).quiet(),
            self.began_release(i, n).discards_nothing(g, gone),
            sum(g, self.tree.identity, added(kept)) == sum(g, self.tree.identity, added(gone)),
            commutative_monoid(g, self.tree.identity),
            clones_as_itself(self.tree.identity),
        ensures
            self.began_release(i, n).ran(g, gone).tree.folded(g, 0) == self.ran(
                g,
                kept,
            ).tree.folded(g, 0),
    {
        self.law_a_handle_may_go(i, n);
        self.law_only_writes_change_the_total(g, i, n);
        self.law_after_any_run_a_quiet_read_is_exact(g, kept);
        self.began_release(i, n).law_after_any_run_a_quiet_read_is_exact(g, gone);
    }
}

} // verus!
